//! The ordering capability that every element or key type must provide.
//!
//! The containers never compare elements through `std`'s `Ord`: a derived
//! `cmp` carries no specification. Instead, each element type implements
//! [`TotalOrder`], which names a strict total order `below` on the type's
//! abstract views (`DeepView::V`) and ties the executable comparison to it.
//! [`Duplicable`] is the analogous replacement for `Clone`: an executable
//! copy that provably equals the value it copies.

use vstd::prelude::*;
use vstd::string::StrSliceExecFns;

verus! {

/// An executable copy that equals the copied value. Needed wherever a
/// container materialises owned elements out of borrowed ones.
pub trait Duplicable: Sized {
    /// An owned copy of the value.
    fn duplicate(&self) -> (d: Self)
        ensures
            d == *self,
    ;
}

/// A strict total order on the abstract views of a type, together with an
/// executable comparison that decides it.
pub trait TotalOrder: DeepView + Sized {
    /// `x` comes strictly before `y` in the order.
    spec fn below(x: Self::V, y: Self::V) -> bool;

    /// `below` is a strict total order: asymmetric, transitive, and any two
    /// views that are unordered either way are equal.
    proof fn lemma_order(x: Self::V, y: Self::V, z: Self::V)
        ensures
            Self::below(x, y) ==> !Self::below(y, x),
            !Self::below(x, y) && !Self::below(y, x) ==> x == y,
            Self::below(x, y) && Self::below(y, z) ==> Self::below(x, z),
    ;

    /// Decide the order on two values.
    fn lt(&self, other: &Self) -> (r: bool)
        ensures
            r == Self::below(self.deep_view(), other.deep_view()),
    ;
}

/// The order laws of [`TotalOrder::lemma_order`], quantified so that one call
/// makes them ambient in a proof.
pub proof fn lemma_order_laws<K: TotalOrder>()
    ensures
        forall|x: K::V, y: K::V| #[trigger] K::below(x, y) ==> !K::below(y, x),
        forall|x: K::V, y: K::V| !(#[trigger] K::below(x, y)) && !K::below(y, x) ==> x == y,
        forall|x: K::V, y: K::V, z: K::V|
            #[trigger] K::below(x, y) && #[trigger] K::below(y, z) ==> K::below(x, z),
{
    assert forall|x: K::V, y: K::V| #[trigger] K::below(x, y) implies !K::below(y, x) by {
        K::lemma_order(x, y, x);
    }
    assert forall|x: K::V, y: K::V| !(#[trigger] K::below(x, y)) && !K::below(y, x) implies x
        == y by {
        K::lemma_order(x, y, x);
    }
    assert forall|x: K::V, y: K::V, z: K::V|
        #[trigger] K::below(x, y) && #[trigger] K::below(y, z) implies K::below(x, z) by {
        K::lemma_order(x, y, z);
    }
}

/// The views of the elements of a sequence, in element order.
pub open spec fn views_of<T: TotalOrder>(s: Seq<T>) -> Seq<T::V> {
    s.map_values(|x: T| x.deep_view())
}

/// The views in `ks` are strictly ascending; strictness implies that no view
/// occurs twice.
pub open spec fn ascending<K: TotalOrder>(ks: Seq<K::V>) -> bool {
    forall|i: int, j: int| 0 <= i < j < ks.len() ==> #[trigger] K::below(ks[i], ks[j])
}

/// In an ascending sequence a view occurs at no index other than where it is.
pub proof fn lemma_ascending_distinct<K: TotalOrder>(ks: Seq<K::V>, i: int, j: int)
    requires
        ascending::<K>(ks),
        0 <= i < ks.len(),
        0 <= j < ks.len(),
        i != j,
    ensures
        ks[i] != ks[j],
{
    lemma_order_laws::<K>();
    if i < j {
        assert(K::below(ks[i], ks[j]));
    } else {
        assert(K::below(ks[j], ks[i]));
    }
}

/// A sequence whose adjacent views are in order is ascending throughout.
pub proof fn lemma_adjacent_implies_ascending<K: TotalOrder>(ks: Seq<K::V>)
    requires
        forall|i: int| 0 <= i < ks.len() - 1 ==> #[trigger] K::below(ks[i], ks[i + 1]),
    ensures
        ascending::<K>(ks),
{
    lemma_order_laws::<K>();
    assert forall|i: int, j: int| 0 <= i < j < ks.len() implies #[trigger] K::below(
        ks[i],
        ks[j],
    ) by {
        lemma_below_span::<K>(ks, i, j);
    }
}

proof fn lemma_below_span<K: TotalOrder>(ks: Seq<K::V>, i: int, j: int)
    requires
        forall|m: int| 0 <= m < ks.len() - 1 ==> #[trigger] K::below(ks[m], ks[m + 1]),
        0 <= i < j < ks.len(),
    ensures
        K::below(ks[i], ks[j]),
    decreases j - i,
{
    lemma_order_laws::<K>();
    assert(K::below(ks[i], ks[i + 1]));
    if i + 1 < j {
        lemma_below_span::<K>(ks, i + 1, j);
    }
}

impl Duplicable for u64 {
    fn duplicate(&self) -> (d: Self) {
        *self
    }
}

impl TotalOrder for u64 {
    open spec fn below(x: u64, y: u64) -> bool {
        x < y
    }

    proof fn lemma_order(x: u64, y: u64, z: u64) {
    }

    fn lt(&self, other: &Self) -> (r: bool) {
        *self < *other
    }
}

impl Duplicable for u32 {
    fn duplicate(&self) -> (d: Self) {
        *self
    }
}

impl TotalOrder for u32 {
    open spec fn below(x: u32, y: u32) -> bool {
        x < y
    }

    proof fn lemma_order(x: u32, y: u32, z: u32) {
    }

    fn lt(&self, other: &Self) -> (r: bool) {
        *self < *other
    }
}

impl Duplicable for i32 {
    fn duplicate(&self) -> (d: Self) {
        *self
    }
}

impl TotalOrder for i32 {
    open spec fn below(x: i32, y: i32) -> bool {
        x < y
    }

    proof fn lemma_order(x: i32, y: i32, z: i32) {
    }

    fn lt(&self, other: &Self) -> (r: bool) {
        *self < *other
    }
}

impl Duplicable for usize {
    fn duplicate(&self) -> (d: Self) {
        *self
    }
}

impl TotalOrder for usize {
    open spec fn below(x: usize, y: usize) -> bool {
        x < y
    }

    proof fn lemma_order(x: usize, y: usize, z: usize) {
    }

    fn lt(&self, other: &Self) -> (r: bool) {
        *self < *other
    }
}

impl<A: Duplicable, B: Duplicable> Duplicable for (A, B) {
    fn duplicate(&self) -> (d: Self) {
        (self.0.duplicate(), self.1.duplicate())
    }
}

/// Lexicographic order on character sequences, by code point: the order on
/// the views of `String` keys.
pub open spec fn lex_below(x: Seq<char>, y: Seq<char>) -> bool
    decreases x.len(),
{
    if y.len() == 0 {
        false
    } else if x.len() == 0 {
        true
    } else if (x[0] as int) < (y[0] as int) {
        true
    } else if (y[0] as int) < (x[0] as int) {
        false
    } else {
        lex_below(x.drop_first(), y.drop_first())
    }
}

/// `lex_below` is a strict total order on character sequences.
pub proof fn lemma_lex_below_total(x: Seq<char>, y: Seq<char>, z: Seq<char>)
    ensures
        lex_below(x, y) ==> !lex_below(y, x),
        !lex_below(x, y) && !lex_below(y, x) ==> x == y,
        lex_below(x, y) && lex_below(y, z) ==> lex_below(x, z),
    decreases x.len() + y.len() + z.len(),
{
    if x.len() == 0 && y.len() == 0 {
        assert(x =~= y);
    }
    if x.len() > 0 && y.len() > 0 && x[0] == y[0] {
        lemma_lex_below_total(x.drop_first(), y.drop_first(), Seq::<char>::empty());
        assert(lex_below(x, y) == lex_below(x.drop_first(), y.drop_first()));
        assert(lex_below(y, x) == lex_below(y.drop_first(), x.drop_first()));
        if !lex_below(x, y) && !lex_below(y, x) {
            assert forall|i: int| 0 <= i < x.len() implies x[i] == y[i] by {
                if i > 0 {
                    assert(x.drop_first()[i - 1] == x[i]);
                    assert(y.drop_first()[i - 1] == y[i]);
                }
            }
            assert(x =~= y);
        }
    }
    if lex_below(x, y) && lex_below(y, z) && x.len() > 0 {
        assert(y.len() > 0 && z.len() > 0);
        if x[0] == y[0] && y[0] == z[0] {
            lemma_lex_below_total(x.drop_first(), y.drop_first(), z.drop_first());
            assert(lex_below(x, y) == lex_below(x.drop_first(), y.drop_first()));
            assert(lex_below(y, z) == lex_below(y.drop_first(), z.drop_first()));
            assert(lex_below(x, z) == lex_below(x.drop_first(), z.drop_first()));
        }
    }
}

/// Equal prefixes do not decide the lexicographic order: it is settled by
/// the remainders.
pub proof fn lemma_lex_below_skip(x: Seq<char>, y: Seq<char>, i: int)
    requires
        0 <= i <= x.len(),
        i <= y.len(),
        forall|j: int| 0 <= j < i ==> x[j] == y[j],
    ensures
        lex_below(x, y) == lex_below(x.skip(i), y.skip(i)),
    decreases i,
{
    if i > 0 {
        assert(x[0] == y[0]);
        assert forall|j: int| 0 <= j < i - 1 implies x.drop_first()[j] == y.drop_first()[j] by {
            assert(x.drop_first()[j] == x[j + 1]);
        }
        lemma_lex_below_skip(x.drop_first(), y.drop_first(), i - 1);
        assert(x.drop_first().skip(i - 1) =~= x.skip(i));
        assert(y.drop_first().skip(i - 1) =~= y.skip(i));
    } else {
        assert(x.skip(0) =~= x);
        assert(y.skip(0) =~= y);
    }
}

/// Decide `lex_below` on two string slices, comparing characters until the
/// first difference.
fn str_lex_lt(a: &str, b: &str) -> (r: bool)
    ensures
        r == lex_below(a@, b@),
{
    let a_len = a.unicode_len();
    let b_len = b.unicode_len();
    let mut i: usize = 0;
    while i < a_len && i < b_len
        invariant
            0 <= i <= a_len,
            i <= b_len,
            a_len == a@.len(),
            b_len == b@.len(),
            forall|j: int| 0 <= j < i ==> a@[j] == b@[j],
        decreases a_len - i,
    {
        let ca = a.get_char(i);
        let cb = b.get_char(i);
        if (ca as u32) < (cb as u32) {
            proof {
                lemma_lex_below_skip(a@, b@, i as int);
                assert(a@.skip(i as int)[0] == a@[i as int]);
                assert(b@.skip(i as int)[0] == b@[i as int]);
            }
            return true;
        }
        if (cb as u32) < (ca as u32) {
            proof {
                lemma_lex_below_skip(a@, b@, i as int);
                assert(a@.skip(i as int)[0] == a@[i as int]);
                assert(b@.skip(i as int)[0] == b@[i as int]);
            }
            return false;
        }
        i += 1;
    }
    proof {
        lemma_lex_below_skip(a@, b@, i as int);
    }
    a_len < b_len
}

impl Duplicable for String {
    fn duplicate(&self) -> (d: Self) {
        self.clone()
    }
}

impl TotalOrder for String {
    open spec fn below(x: Seq<char>, y: Seq<char>) -> bool {
        lex_below(x, y)
    }

    proof fn lemma_order(x: Seq<char>, y: Seq<char>, z: Seq<char>) {
        lemma_lex_below_total(x, y, z);
    }

    fn lt(&self, other: &Self) -> (r: bool) {
        str_lex_lt(self.as_str(), other.as_str())
    }
}

/// Mapping to views commutes with insertion.
pub proof fn lemma_views_insert<T: TotalOrder>(s: Seq<T>, i: int, x: T)
    requires
        0 <= i <= s.len(),
    ensures
        views_of(s.insert(i, x)) =~= views_of(s).insert(i, x.deep_view()),
{
    s.insert_ensures(i, x);
    views_of(s).insert_ensures(i, x.deep_view());
}

/// Mapping to views commutes with removal.
pub proof fn lemma_views_remove<T: TotalOrder>(s: Seq<T>, i: int)
    requires
        0 <= i < s.len(),
    ensures
        views_of(s.remove(i)) =~= views_of(s).remove(i),
{
    s.remove_ensures(i);
    views_of(s).remove_ensures(i);
}

/// Inserting a view between the prefix below it and the rest above it keeps
/// a sequence ascending.
pub proof fn lemma_ascending_insert<K: TotalOrder>(ks: Seq<K::V>, x: K::V, idx: int)
    requires
        ascending::<K>(ks),
        0 <= idx <= ks.len(),
        forall|i: int| 0 <= i < idx ==> K::below(#[trigger] ks[i], x),
        idx < ks.len() ==> K::below(x, ks[idx]),
    ensures
        ascending::<K>(ks.insert(idx, x)),
{
    lemma_order_laws::<K>();
    ks.insert_ensures(idx, x);
    let ks2 = ks.insert(idx, x);
    assert forall|i: int, j: int| 0 <= i < j < ks2.len() implies #[trigger] K::below(
        ks2[i],
        ks2[j],
    ) by {
        if i < idx && j < idx {
            assert(K::below(ks[i], ks[j]));
        } else if i < idx && j == idx {
            assert(K::below(ks[i], x));
        } else if i < idx && j > idx {
            if idx < ks.len() {
                assert(K::below(ks[i], ks[idx]));
            }
            assert(K::below(ks[i], ks[j - 1]));
        } else if i == idx && j > idx {
            assert(K::below(x, ks[idx]));
            if j - 1 > idx {
                assert(K::below(ks[idx], ks[j - 1]));
            }
        } else {
            assert(K::below(ks[i - 1], ks[j - 1]));
        }
    }
}

/// Removing an element keeps a sequence ascending.
pub proof fn lemma_ascending_remove<K: TotalOrder>(ks: Seq<K::V>, idx: int)
    requires
        ascending::<K>(ks),
        0 <= idx < ks.len(),
    ensures
        ascending::<K>(ks.remove(idx)),
{
    ks.remove_ensures(idx);
    let ks2 = ks.remove(idx);
    assert forall|i: int, j: int| 0 <= i < j < ks2.len() implies #[trigger] K::below(
        ks2[i],
        ks2[j],
    ) by {
        let i0: int = if i < idx { i } else { i + 1 };
        let j0: int = if j < idx { j } else { j + 1 };
        assert(ks2[i] == ks[i0]);
        assert(ks2[j] == ks[j0]);
        assert(K::below(ks[i0], ks[j0]));
    }
}

/// Mapping to views commutes with dropping a prefix.
pub proof fn lemma_views_skip<T: TotalOrder>(s: Seq<T>, n: int)
    requires
        0 <= n <= s.len(),
    ensures
        views_of(s.skip(n)) =~= views_of(s).skip(n),
{
}

/// Dropping a prefix keeps a sequence ascending.
pub proof fn lemma_ascending_skip<K: TotalOrder>(ks: Seq<K::V>, n: int)
    requires
        ascending::<K>(ks),
        0 <= n <= ks.len(),
    ensures
        ascending::<K>(ks.skip(n)),
{
    let ks2 = ks.skip(n);
    assert forall|i: int, j: int| 0 <= i < j < ks2.len() implies #[trigger] K::below(
        ks2[i],
        ks2[j],
    ) by {
        assert(ks2[i] == ks[i + n]);
        assert(ks2[j] == ks[j + n]);
        assert(K::below(ks[i + n], ks[j + n]));
    }
}

/// Views are taken elementwise: the lengths agree.
pub broadcast proof fn lemma_views_len<T: TotalOrder>(s: Seq<T>)
    ensures
        #[trigger] views_of(s).len() == s.len(),
{
}

/// Views are taken elementwise: each index agrees.
pub broadcast proof fn lemma_views_index<T: TotalOrder>(s: Seq<T>, i: int)
    requires
        0 <= i < s.len(),
    ensures
        #[trigger] views_of(s)[i] == s[i].deep_view(),
{
}

/// The elementwise facts of [`views_of`], available together.
pub broadcast group group_views_axioms {
    lemma_views_len,
    lemma_views_index,
}

/// Mapping to views commutes with prepending one element.
pub proof fn lemma_views_cons<T: TotalOrder>(x: T, s: Seq<T>)
    ensures
        views_of(seq![x] + s) =~= seq![x.deep_view()] + views_of(s),
{
    broadcast use group_views_axioms;

}

/// A sequence holds a value exactly when its head is the value or its tail
/// holds it.
pub proof fn lemma_contains_step<A>(s: Seq<A>, v: A)
    requires
        s.len() > 0,
    ensures
        s.contains(v) <==> (v == s[0] || s.drop_first().contains(v)),
{
    if s.contains(v) {
        let i = choose|i: int| 0 <= i < s.len() && s[i] == v;
        if i > 0 {
            assert(s.drop_first()[i - 1] == v);
        }
    }
    if s.drop_first().contains(v) {
        let i = choose|i: int| 0 <= i < s.drop_first().len() && s.drop_first()[i] == v;
        assert(s[i + 1] == v);
    }
    if v == s[0] {
        assert(s[0] == v);
    }
}

/// In an ascending sequence every view held is the head or above the head.
pub proof fn lemma_ascending_head_min<K: TotalOrder>(vs: Seq<K::V>, v: K::V)
    requires
        ascending::<K>(vs),
        vs.len() > 0,
        vs.contains(v),
    ensures
        v == vs[0] || K::below(vs[0], v),
{
    let i = choose|i: int| 0 <= i < vs.len() && vs[i] == v;
    if i > 0 {
        assert(K::below(vs[0], vs[i]));
    }
}

/// Everything held by the tail of an ascending sequence is above the head.
pub proof fn lemma_ascending_tail_above<K: TotalOrder>(vs: Seq<K::V>, v: K::V)
    requires
        ascending::<K>(vs),
        vs.len() > 0,
        vs.drop_first().contains(v),
    ensures
        K::below(vs[0], v),
{
    let i = choose|i: int| 0 <= i < vs.drop_first().len() && vs.drop_first()[i] == v;
    assert(vs[i + 1] == v);
    assert(K::below(vs[0], vs[i + 1]));
}

/// Prepending a view below everything a sequence holds keeps it ascending.
pub proof fn lemma_ascending_cons<K: TotalOrder>(h: K::V, vs: Seq<K::V>)
    requires
        ascending::<K>(vs),
        forall|v: K::V| #[trigger] vs.contains(v) ==> K::below(h, v),
    ensures
        ascending::<K>(seq![h] + vs),
{
    let c = seq![h] + vs;
    assert forall|i: int, j: int| 0 <= i < j < c.len() implies #[trigger] K::below(c[i], c[j]) by {
        if i == 0 {
            assert(vs[j - 1] == c[j]);
            assert(vs.contains(vs[j - 1]));
        } else {
            assert(c[i] == vs[i - 1]);
            assert(c[j] == vs[j - 1]);
            assert(K::below(vs[i - 1], vs[j - 1]));
        }
    }
}

/// Inserting holds exactly the old values and the new one.
pub proof fn lemma_insert_contains<A>(s: Seq<A>, i: int, x: A, v: A)
    requires
        0 <= i <= s.len(),
    ensures
        s.insert(i, x).contains(v) <==> (s.contains(v) || v == x),
{
    s.insert_ensures(i, x);
    let s2 = s.insert(i, x);
    if s2.contains(v) {
        let j = choose|j: int| 0 <= j < s2.len() && s2[j] == v;
        if j < i {
            assert(s[j] == v);
        } else if j > i {
            assert(s2[(j - 1) + 1] == s[j - 1]);
            assert(s[j - 1] == v);
        }
    }
    if s.contains(v) {
        let j = choose|j: int| 0 <= j < s.len() && s[j] == v;
        if j < i {
            assert(s2[j] == v);
        } else {
            assert(s2[j + 1] == v);
        }
    }
    if v == x {
        assert(s2[i] == v);
    }
}

} // verus!
