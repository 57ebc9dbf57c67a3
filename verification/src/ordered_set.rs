//! A set of elements kept as a single sorted, duplicate-free vector.
//!
//! Membership, insertion and removal all locate their position with one
//! binary search; insertion and removal then shift the tail, so they cost
//! linear time in the worst case. The payoff is that iteration is already
//! in order and set algebra is a linear merge (see the iterator modules).

use vstd::prelude::*;

use crate::order::{
    ascending, lemma_ascending_insert, lemma_ascending_remove, lemma_order_laws,
    lemma_views_insert, lemma_views_remove, views_of, TotalOrder,
};
use crate::iter_ops::{
    a_contains_b, are_disjoint, share_no_view, views_subset, MergeIter, SetOp,
};
use crate::order::lemma_insert_contains;
use crate::ordered_iterators::SetIter;
use crate::ordered_map::OrderedMap;
use crate::position::{
    after_index, first_after, first_at_or_after, from_index, lemma_first_after,
    lemma_first_at_or_after,
};

verus! {

/// Relies on `Vec::capacity`: the number of elements a vector can hold
/// without reallocating, which is never less than its length.
#[verifier::external_body]
pub(crate) fn vec_capacity<T>(v: &Vec<T>) -> (r: usize)
    ensures
        r >= v@.len(),
{
    v.capacity()
}

/// An ordered set: a vector whose element views are strictly ascending.
#[derive(Clone, Debug, Hash, PartialEq, Eq)]
pub struct OrderedSet<T: TotalOrder> {
    list: Vec<T>,
}

impl<T: TotalOrder> View for OrderedSet<T> {
    type V = Seq<T>;

    closed spec fn view(&self) -> Seq<T> {
        self.list@
    }
}

impl<T: TotalOrder> OrderedSet<T> {
    /// The structural invariant: the stored views ascend strictly, so no
    /// view occurs twice.
    pub open spec fn wf(self) -> bool {
        ascending::<T>(views_of(self@))
    }

    /// The view of `x` is the view of some member.
    pub open spec fn has_view(self, x: T::V) -> bool {
        views_of(self@).contains(x)
    }

    /// An empty set.
    pub fn new() -> (s: Self)
        ensures
            s@ == Seq::<T>::empty(),
            s.wf(),
    {
        Self { list: Vec::new() }
    }

    /// A set over a vector that is already sorted and duplicate-free.
    /// The claim of sortedness is the caller's; it is not re-examined.
    pub fn from_sorted(list: Vec<T>) -> (s: Self)
        requires
            ascending::<T>(views_of(list@)),
        ensures
            s@ == list@,
            s.wf(),
    {
        Self { list }
    }

    /// The number of members.
    pub fn len(&self) -> (n: usize)
        ensures
            n == self@.len(),
    {
        self.list.len()
    }

    /// Whether the set has no members.
    pub fn is_empty(&self) -> (e: bool)
        ensures
            e == (self@.len() == 0),
    {
        self.list.len() == 0
    }

    /// How many members the set can hold without reallocating: at least as
    /// many as it has.
    pub fn capacity(&self) -> (c: usize)
        ensures
            c >= self@.len(),
    {
        vec_capacity(&self.list)
    }

    /// Remove every member.
    pub fn clear(&mut self)
        ensures
            final(self)@ == Seq::<T>::empty(),
            final(self).wf(),
    {
        self.list.clear();
    }

    /// Remove and return every member, in ascending order, leaving the set
    /// empty.
    pub fn drain(&mut self) -> (out: Vec<T>)
        ensures
            out@ == old(self)@,
            final(self)@ == Seq::<T>::empty(),
            final(self).wf(),
    {
        let mut out: Vec<T> = Vec::new();
        core::mem::swap(&mut out, &mut self.list);
        out
    }

    /// Insert `item`. Returns `true` and places the item at its ordered
    /// position when no member shares its view; otherwise the set is
    /// unchanged — the member already present stays — and `false` comes
    /// back.
    pub fn insert(&mut self, item: T) -> (r: bool)
        requires
            old(self).wf(),
        ensures
            final(self).wf(),
            r == !old(self).has_view(item.deep_view()),
            r ==> final(self)@ == old(self)@.insert(
                first_at_or_after::<T>(views_of(old(self)@), item.deep_view()),
                item,
            ),
            !r ==> final(self)@ == old(self)@,
    {
        let ghost ks = views_of(self.list@);
        let ghost x = item.deep_view();
        let idx = from_index(self.list.as_slice(), &item);
        proof {
            lemma_first_at_or_after::<T>(ks, x);
            lemma_order_laws::<T>();
        }
        if idx < self.list.len() && !item.lt(&self.list[idx]) {
            proof {
                assert(ks[idx as int] == x);
            }
            false
        } else {
            proof {
                assert forall|i: int| 0 <= i < ks.len() implies ks[i] != x by {
                    if i < idx {
                        assert(T::below(ks[i], x));
                    } else if i == idx {
                        assert(T::below(x, ks[i]));
                    } else {
                        assert(T::below(x, ks[idx as int]));
                        assert(T::below(ks[idx as int], ks[i]));
                    }
                }
                lemma_views_insert(self.list@, idx as int, item);
                lemma_ascending_insert::<T>(ks, x, idx as int);
            }
            self.list.insert(idx, item);
            true
        }
    }

    /// Remove the member whose view is that of `item`, if there is one.
    /// Returns whether there was; removing an absent item changes nothing.
    pub fn remove(&mut self, item: &T) -> (r: bool)
        requires
            old(self).wf(),
        ensures
            final(self).wf(),
            r == old(self).has_view(item.deep_view()),
            r ==> final(self)@ == old(self)@.remove(
                first_at_or_after::<T>(views_of(old(self)@), item.deep_view()),
            ),
            !r ==> final(self)@ == old(self)@,
    {
        let ghost ks = views_of(self.list@);
        let ghost x = item.deep_view();
        let idx = from_index(self.list.as_slice(), item);
        proof {
            lemma_first_at_or_after::<T>(ks, x);
            lemma_order_laws::<T>();
        }
        if idx < self.list.len() && !item.lt(&self.list[idx]) {
            proof {
                assert(ks[idx as int] == x);
                lemma_views_remove(self.list@, idx as int);
                lemma_ascending_remove::<T>(ks, idx as int);
            }
            self.list.remove(idx);
            true
        } else {
            proof {
                assert forall|i: int| 0 <= i < ks.len() implies ks[i] != x by {
                    if i < idx {
                        assert(T::below(ks[i], x));
                    } else if i == idx {
                        assert(T::below(x, ks[i]));
                    } else {
                        assert(T::below(x, ks[idx as int]));
                        assert(T::below(ks[idx as int], ks[i]));
                    }
                }
            }
            false
        }
    }

    /// Whether some member's view is that of `item`.
    pub fn contains(&self, item: &T) -> (r: bool)
        requires
            self.wf(),
        ensures
            r == self.has_view(item.deep_view()),
    {
        let ghost ks = views_of(self.list@);
        let ghost x = item.deep_view();
        let idx = from_index(self.list.as_slice(), item);
        proof {
            lemma_first_at_or_after::<T>(ks, x);
            lemma_order_laws::<T>();
        }
        if idx < self.list.len() && !item.lt(&self.list[idx]) {
            proof {
                assert(ks[idx as int] == x);
            }
            true
        } else {
            proof {
                assert forall|i: int| 0 <= i < ks.len() implies ks[i] != x by {
                    if i < idx {
                        assert(T::below(ks[i], x));
                    } else if i == idx {
                        assert(T::below(x, ks[i]));
                    } else {
                        assert(T::below(x, ks[idx as int]));
                        assert(T::below(ks[idx as int], ks[i]));
                    }
                }
            }
            false
        }
    }

    /// An iterator over the members, in ascending order.
    pub fn iter(&self) -> (it: SetIter<'_, T>)
        ensures
            it.wf(),
            it.remaining() == self@,
    {
        SetIter::new(self.list.as_slice())
    }

    /// An iterator over the members that come strictly after `item` in the
    /// order.
    pub fn iter_after(&self, item: &T) -> (it: SetIter<'_, T>)
        requires
            self.wf(),
        ensures
            it.wf(),
            it.remaining() == self@.skip(
                first_after::<T>(views_of(self@), item.deep_view()),
            ),
    {
        let i = after_index(self.list.as_slice(), item);
        proof {
            lemma_first_after::<T>(views_of(self.list@), item.deep_view());
            assert(self.list@.subrange(i as int, self.list@.len() as int) =~= self.list@.skip(
                i as int,
            ));
        }
        SetIter::new(&self.list[i..self.list.len()])
    }

    /// The least member, or nothing when the set is empty.
    pub fn first(&self) -> (r: Option<&T>)
        ensures
            match r {
                Some(m) => self@.len() > 0 && *m == self@[0],
                None => self@.len() == 0,
            },
    {
        self.list.as_slice().first()
    }

    /// Whether the stored vector really is strictly ascending: a diagnostic
    /// re-examination of the invariant that every operation preserves.
    pub fn is_valid(&self) -> (r: bool)
        ensures
            r == self.wf(),
    {
        let ghost ks = views_of(self.list@);
        let mut i: usize = 1;
        while i < self.list.len()
            invariant
                1 <= i,
                i <= ks.len() || ks.len() == 0,
                ks == views_of(self.list@),
                forall|m: int| 0 <= m < i - 1 && m < ks.len() - 1 ==> #[trigger] T::below(
                    ks[m],
                    ks[m + 1],
                ),
            decreases self.list.len() - i,
        {
            if !self.list[i - 1].lt(&self.list[i]) {
                proof {
                    if self.wf() {
                        assert(T::below(ks[i as int - 1], ks[i as int]));
                    }
                }
                return false;
            }
            i += 1;
        }
        proof {
            crate::order::lemma_adjacent_implies_ascending::<T>(ks);
        }
        true
    }
}

impl<T: TotalOrder> Default for OrderedSet<T> {
    /// An empty set.
    fn default() -> (s: Self)
        ensures
            s@ == Seq::<T>::empty(),
            s.wf(),
    {
        Self { list: Vec::new() }
    }
}

impl<T: TotalOrder> OrderedSet<T> {
    /// A set holding one member for each distinct view among `items`, by
    /// repeated insertion in order; the first item with a given view is the
    /// one kept.
    pub fn from_items(items: Vec<T>) -> (s: Self)
        ensures
            s.wf(),
            forall|v: T::V| #[trigger] s.has_view(v) <==> views_of(items@).contains(v),
    {
        let ghost whole = items@;
        let mut rest = items;
        let mut s = Self::new();
        proof {
            assert(whole.skip(0) =~= whole);
            assert(views_of(whole.take(0)) =~= Seq::<T::V>::empty());
        }
        while rest.len() > 0
            invariant
                s.wf(),
                rest@ == whole.skip(whole.len() - rest@.len()),
                rest@.len() <= whole.len(),
                forall|v: T::V| #[trigger] s.has_view(v) <==> views_of(
                    whole.take(whole.len() - rest@.len()),
                ).contains(v),
            decreases rest@.len(),
        {
            let ghost before = rest@;
            let ghost sbefore = s@;
            let ghost n = whole.len() - before.len();
            proof {
                assert forall|v: T::V|
                    views_of(sbefore).contains(v) <==> #[trigger] views_of(
                        whole.take(n),
                    ).contains(v) by {
                    assert(s.has_view(v) <==> views_of(
                        whole.take(whole.len() - rest@.len()),
                    ).contains(v));
                }
            }
            let x = rest.remove(0);
            let ghost xv = x.deep_view();
            let ghost pos = first_at_or_after::<T>(views_of(sbefore), xv);
            proof {
                assert(before[0] == whole.skip(n)[0]);
                assert(whole.skip(n)[0] == whole[n]);
                assert(rest@ =~= whole.skip(whole.len() - rest@.len()));
            }
            let inserted = s.insert(x);
            proof {
                lemma_first_at_or_after::<T>(views_of(sbefore), xv);
                if inserted {
                    crate::order::lemma_views_insert(sbefore, pos, x);
                }
                assert forall|v: T::V| #[trigger] s.has_view(v) <==> views_of(
                    whole.take(n + 1),
                ).contains(v) by {
                    if inserted {
                        lemma_insert_contains(views_of(sbefore), pos, xv, v);
                    }
                    lemma_take_snoc_contains::<T>(whole, n, v);
                }
            }
        }
        proof {
            assert(whole.take(whole.len() as int) =~= whole);
        }
        s
    }

    /// The lazy union of two sets: every view of either, each once, in
    /// order.
    pub fn union<'a>(&'a self, other: &'a Self) -> (it: MergeIter<'a, T>)
        requires
            self.wf(),
            other.wf(),
        ensures
            it.wf(),
            it.srt(),
            it.policy() == SetOp::Union,
            it.left_rem() == self@,
            it.right_rem() == other@,
    {
        MergeIter::new(SetOp::Union, self.iter(), other.iter())
    }

    /// The lazy intersection of two sets: the views both hold, in order.
    pub fn intersection<'a>(&'a self, other: &'a Self) -> (it: MergeIter<'a, T>)
        requires
            self.wf(),
            other.wf(),
        ensures
            it.wf(),
            it.srt(),
            it.policy() == SetOp::Intersection,
            it.left_rem() == self@,
            it.right_rem() == other@,
    {
        MergeIter::new(SetOp::Intersection, self.iter(), other.iter())
    }

    /// The lazy difference of two sets: the views of `self` that `other`
    /// does not hold, in order.
    pub fn difference<'a>(&'a self, other: &'a Self) -> (it: MergeIter<'a, T>)
        requires
            self.wf(),
            other.wf(),
        ensures
            it.wf(),
            it.srt(),
            it.policy() == SetOp::Difference,
            it.left_rem() == self@,
            it.right_rem() == other@,
    {
        MergeIter::new(SetOp::Difference, self.iter(), other.iter())
    }

    /// The lazy symmetric difference of two sets: the views exactly one of
    /// them holds, in order.
    pub fn symmetric_difference<'a>(&'a self, other: &'a Self) -> (it: MergeIter<'a, T>)
        requires
            self.wf(),
            other.wf(),
        ensures
            it.wf(),
            it.srt(),
            it.policy() == SetOp::SymmetricDifference,
            it.left_rem() == self@,
            it.right_rem() == other@,
    {
        MergeIter::new(SetOp::SymmetricDifference, self.iter(), other.iter())
    }

    /// Whether no view is held by both sets.
    pub fn is_disjoint(&self, other: &Self) -> (r: bool)
        requires
            self.wf(),
            other.wf(),
        ensures
            r == share_no_view(self@, other@),
    {
        let mut a = self.iter();
        let mut b = other.iter();
        are_disjoint(&mut a, &mut b)
    }

    /// Whether every view of this set is held by `other`.
    pub fn is_subset(&self, other: &Self) -> (r: bool)
        requires
            self.wf(),
            other.wf(),
        ensures
            r == views_subset(self@, other@),
    {
        let mut a = other.iter();
        let mut b = self.iter();
        a_contains_b(&mut a, &mut b)
    }

    /// Whether `other` holds every view of this set and more.
    pub fn is_proper_subset(&self, other: &Self) -> (r: bool)
        requires
            self.wf(),
            other.wf(),
        ensures
            r == (other@.len() > self@.len() && views_subset(self@, other@)),
    {
        other.len() > self.len() && self.is_subset(other)
    }

    /// Whether this set holds every view of `other`.
    pub fn is_superset(&self, other: &Self) -> (r: bool)
        requires
            self.wf(),
            other.wf(),
        ensures
            r == views_subset(other@, self@),
    {
        let mut a = self.iter();
        let mut b = other.iter();
        a_contains_b(&mut a, &mut b)
    }

    /// Whether this set holds every view of `other` and more.
    pub fn is_proper_superset(&self, other: &Self) -> (r: bool)
        requires
            self.wf(),
            other.wf(),
        ensures
            r == (self@.len() > other@.len() && views_subset(other@, self@)),
    {
        self.len() > other.len() && self.is_superset(other)
    }
}

/// A value is held by the first `n + 1` elements exactly when it is held by
/// the first `n` or sits at index `n`.
proof fn lemma_take_snoc_contains<T: TotalOrder>(s: Seq<T>, n: int, v: T::V)
    requires
        0 <= n < s.len(),
    ensures
        views_of(s.take(n + 1)).contains(v) <==> (views_of(s.take(n)).contains(v) || v
            == s[n].deep_view()),
{
    let a = views_of(s.take(n + 1));
    let b = views_of(s.take(n));
    if a.contains(v) {
        let i = choose|i: int| 0 <= i < a.len() && a[i] == v;
        if i < n {
            assert(b[i] == v);
        } else {
            assert(s.take(n + 1)[i] == s[n]);
        }
    }
    if b.contains(v) {
        let i = choose|i: int| 0 <= i < b.len() && b[i] == v;
        assert(a[i] == v);
    }
    if v == s[n].deep_view() {
        assert(a[n] == v);
    }
}

impl<T: TotalOrder> OrderedSet<T> {
    /// The lazy union of this set with the keys of a map.
    pub fn map_union<'a, V>(&'a self, other: &'a OrderedMap<T, V>) -> (it: MergeIter<'a, T>)
        requires
            self.wf(),
            other.wf(),
        ensures
            it.wf(),
            it.srt(),
            it.policy() == SetOp::Union,
            it.left_rem() == self@,
            it.right_rem() == other.key_seq(),
    {
        MergeIter::new(SetOp::Union, self.iter(), other.keys())
    }

    /// The lazy intersection of this set with the keys of a map.
    pub fn map_intersection<'a, V>(&'a self, other: &'a OrderedMap<T, V>) -> (it: MergeIter<
        'a,
        T,
    >)
        requires
            self.wf(),
            other.wf(),
        ensures
            it.wf(),
            it.srt(),
            it.policy() == SetOp::Intersection,
            it.left_rem() == self@,
            it.right_rem() == other.key_seq(),
    {
        MergeIter::new(SetOp::Intersection, self.iter(), other.keys())
    }

    /// The lazy difference of this set against the keys of a map.
    pub fn map_difference<'a, V>(&'a self, other: &'a OrderedMap<T, V>) -> (it: MergeIter<'a, T>)
        requires
            self.wf(),
            other.wf(),
        ensures
            it.wf(),
            it.srt(),
            it.policy() == SetOp::Difference,
            it.left_rem() == self@,
            it.right_rem() == other.key_seq(),
    {
        MergeIter::new(SetOp::Difference, self.iter(), other.keys())
    }

    /// The lazy symmetric difference of this set against the keys of a map.
    pub fn map_symmetric_difference<'a, V>(&'a self, other: &'a OrderedMap<T, V>) -> (it:
        MergeIter<'a, T>)
        requires
            self.wf(),
            other.wf(),
        ensures
            it.wf(),
            it.srt(),
            it.policy() == SetOp::SymmetricDifference,
            it.left_rem() == self@,
            it.right_rem() == other.key_seq(),
    {
        MergeIter::new(SetOp::SymmetricDifference, self.iter(), other.keys())
    }

    /// Whether no view is held both by this set and as a key of the map.
    pub fn is_map_disjoint<V>(&self, other: &OrderedMap<T, V>) -> (r: bool)
        requires
            self.wf(),
            other.wf(),
        ensures
            r == share_no_view(self@, other.key_seq()),
    {
        let mut a = self.iter();
        let mut b = other.keys();
        are_disjoint(&mut a, &mut b)
    }
}

} // verus!
