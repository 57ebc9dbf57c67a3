//! Cursor-style iterators over the sorted storage, with skip-ahead.
//!
//! Every iterator here is a borrowed slice (or pair of slices) and a cursor
//! index. Beyond yielding the next element, each supports the skip-ahead
//! protocol of [`SkipAheadIterator`]: jumping the cursor directly to the
//! first key past (or at) a target, by a binary search over the part not yet
//! yielded. The merge-based set algebra is built on this protocol.

use vstd::prelude::*;

use crate::order::{ascending, views_of, Duplicable, TotalOrder};
use crate::ordered_map::OrderedMap;
use crate::ordered_set::OrderedSet;
use crate::position::{after_index, first_after, first_at_or_after, from_index};

verus! {

broadcast use crate::order::group_views_axioms;

/// The skip-ahead protocol: discard every leading element whose key is at
/// or before (`skip_past`), or strictly before (`skip_until`), a target,
/// using the sortedness of the keys still to come.
pub trait SkipAheadIterator<K: TotalOrder>: Sized {
    /// The keys not yet yielded, in order.
    spec fn rem_keys(self) -> Seq<K>;

    /// The iterator's cursor is within bounds.
    spec fn valid(self) -> bool;

    /// Advance so that the next key, if any, is the first strictly after
    /// `t`.
    fn skip_past(&mut self, t: &K)
        requires
            old(self).valid(),
            ascending::<K>(views_of(old(self).rem_keys())),
        ensures
            final(self).valid(),
            final(self).rem_keys() == old(self).rem_keys().skip(
                first_after::<K>(views_of(old(self).rem_keys()), t.deep_view()),
            ),
    ;

    /// Advance so that the next key, if any, is the first at or after `t`.
    fn skip_until(&mut self, t: &K)
        requires
            old(self).valid(),
            ascending::<K>(views_of(old(self).rem_keys())),
        ensures
            final(self).valid(),
            final(self).rem_keys() == old(self).rem_keys().skip(
                first_at_or_after::<K>(views_of(old(self).rem_keys()), t.deep_view()),
            ),
    ;
}

/// Materialise what an iterator has left into an owned vector.
pub trait ToList<I: Duplicable>: Sized {
    /// The items not yet yielded, in order.
    spec fn rem_items(self) -> Seq<I>;

    /// The iterator's cursor is within bounds.
    spec fn items_valid(self) -> bool;

    /// Consume the rest of the iterator into a vector.
    fn to_list(&mut self) -> (out: Vec<I>)
        requires
            old(self).items_valid(),
        ensures
            final(self).items_valid(),
            out@ == old(self).rem_items(),
            final(self).rem_items() == Seq::<I>::empty(),
    ;
}

/// Materialise what an iterator has left into an [`OrderedSet`].
pub trait ToSet<T: TotalOrder + Duplicable>: ToList<T> {
    /// Consume the rest of the iterator, whose items must still be
    /// ascending, into a set holding exactly those items.
    fn to_set(&mut self) -> (out: OrderedSet<T>)
        requires
            old(self).items_valid(),
            ascending::<T>(views_of(old(self).rem_items())),
        ensures
            final(self).items_valid(),
            out@ == old(self).rem_items(),
            out.wf(),
            final(self).rem_items() == Seq::<T>::empty(),
    ;
}

// SET ITERATOR

/// An iterator over a sorted slice of elements.
pub struct SetIter<'a, T: TotalOrder> {
    items: &'a [T],
    index: usize,
}

impl<'a, T: TotalOrder> SetIter<'a, T> {
    /// The elements not yet yielded, in order.
    pub closed spec fn remaining(self) -> Seq<T> {
        self.items@.skip(self.index as int)
    }

    /// The cursor is within bounds.
    pub closed spec fn wf(self) -> bool {
        self.index <= self.items@.len()
    }

    /// An iterator at the start of `items`.
    pub fn new(items: &'a [T]) -> (it: Self)
        ensures
            it.wf(),
            it.remaining() == items@,
    {
        proof {
            assert(items@.skip(0) =~= items@);
        }
        Self { items, index: 0 }
    }

    /// The next element without advancing; nothing once exhausted.
    pub fn peek(&self) -> (r: Option<&'a T>)
        requires
            self.wf(),
        ensures
            match r {
                Some(x) => self.remaining().len() > 0 && *x == self.remaining()[0],
                None => self.remaining().len() == 0,
            },
    {
        if self.index < self.items.len() {
            proof {
                assert(self.items@.skip(self.index as int)[0] == self.items@[self.index as int]);
            }
            Some(&self.items[self.index])
        } else {
            None
        }
    }

    /// The next element, advancing past it; nothing once exhausted.
    pub fn next(&mut self) -> (r: Option<&'a T>)
        requires
            old(self).wf(),
        ensures
            final(self).wf(),
            match r {
                Some(x) => old(self).remaining().len() > 0 && *x == old(self).remaining()[0]
                    && final(self).remaining() == old(self).remaining().drop_first(),
                None => old(self).remaining().len() == 0 && final(self).remaining() == old(
                    self,
                ).remaining(),
            },
    {
        if self.index < self.items.len() {
            let x = &self.items[self.index];
            proof {
                assert(self.items@.skip(self.index as int + 1) =~= self.items@.skip(
                    self.index as int,
                ).drop_first());
                assert(self.items@.skip(self.index as int)[0] == self.items@[self.index as int]);
            }
            self.index += 1;
            Some(x)
        } else {
            None
        }
    }

    /// The next element strictly after `t`, discarding everything at or
    /// before `t` on the way.
    pub fn next_after(&mut self, t: &T) -> (r: Option<&'a T>)
        requires
            old(self).wf(),
            ascending::<T>(views_of(old(self).remaining())),
        ensures
            final(self).wf(),
            match r {
                Some(x) => {
                    let rem = old(self).remaining().skip(
                        first_after::<T>(views_of(old(self).remaining()), t.deep_view()),
                    );
                    rem.len() > 0 && *x == rem[0] && final(self).remaining() == rem.drop_first()
                },
                None => old(self).remaining().skip(
                    first_after::<T>(views_of(old(self).remaining()), t.deep_view()),
                ).len() == 0 && final(self).remaining() == old(self).remaining().skip(
                    first_after::<T>(views_of(old(self).remaining()), t.deep_view()),
                ),
            },
    {
        self.skip_past(t);
        self.next()
    }

    /// The next element at or after `t`, discarding everything before `t`
    /// on the way.
    pub fn next_from(&mut self, t: &T) -> (r: Option<&'a T>)
        requires
            old(self).wf(),
            ascending::<T>(views_of(old(self).remaining())),
        ensures
            final(self).wf(),
            match r {
                Some(x) => {
                    let rem = old(self).remaining().skip(
                        first_at_or_after::<T>(views_of(old(self).remaining()), t.deep_view()),
                    );
                    rem.len() > 0 && *x == rem[0] && final(self).remaining() == rem.drop_first()
                },
                None => old(self).remaining().skip(
                    first_at_or_after::<T>(views_of(old(self).remaining()), t.deep_view()),
                ).len() == 0 && final(self).remaining() == old(self).remaining().skip(
                    first_at_or_after::<T>(views_of(old(self).remaining()), t.deep_view()),
                ),
            },
    {
        self.skip_until(t);
        self.next()
    }
}

impl<'a, T: TotalOrder> SkipAheadIterator<T> for SetIter<'a, T> {
    closed spec fn rem_keys(self) -> Seq<T> {
        self.remaining()
    }

    closed spec fn valid(self) -> bool {
        self.wf()
    }

    fn skip_past(&mut self, t: &T) {
        let ghost rem = self.remaining();
        let sub = &self.items[self.index..self.items.len()];
        proof {
            assert(sub@ =~= rem);
        }
        let n = after_index(sub, t);
        proof {
            crate::position::lemma_first_after::<T>(views_of(rem), t.deep_view());
            vstd::seq_lib::lemma_seq_skip_of_skip(self.items@, self.index as int, n as int);
        }
        self.index += n;
    }

    fn skip_until(&mut self, t: &T) {
        let ghost rem = self.remaining();
        let sub = &self.items[self.index..self.items.len()];
        proof {
            assert(sub@ =~= rem);
        }
        let n = from_index(sub, t);
        proof {
            crate::position::lemma_first_at_or_after::<T>(views_of(rem), t.deep_view());
            vstd::seq_lib::lemma_seq_skip_of_skip(self.items@, self.index as int, n as int);
        }
        self.index += n;
    }
}

impl<'a, T: TotalOrder + Duplicable> ToList<T> for SetIter<'a, T> {
    closed spec fn rem_items(self) -> Seq<T> {
        self.remaining()
    }

    closed spec fn items_valid(self) -> bool {
        self.wf()
    }

    fn to_list(&mut self) -> (out: Vec<T>) {
        let mut out: Vec<T> = Vec::new();
        loop
            invariant
                self.wf(),
                out@ + self.remaining() == old(self).remaining(),
            decreases self.remaining().len(),
        {
            let ghost rem = self.remaining();
            match self.next() {
                Some(x) => {
                    out.push(x.duplicate());
                    proof {
                        assert(out@ + self.remaining() =~= old(self).remaining());
                    }
                },
                None => {
                    proof {
                        assert(out@ =~= old(self).remaining());
                    }
                    return out;
                },
            }
        }
    }
}

impl<'a, T: TotalOrder + Duplicable> ToSet<T> for SetIter<'a, T> {
    fn to_set(&mut self) -> (out: OrderedSet<T>) {
        let list = self.to_list();
        OrderedSet::from_sorted(list)
    }
}

/// Whether the whole stream ahead of `iter` is strictly ascending with no
/// duplicates, consuming it: the diagnostic oracle for the sorted
/// containers and the merge engine.
pub fn output_is_ordered_nodups<'a, T: TotalOrder>(iter: &mut SetIter<'a, T>) -> (r: bool)
    requires
        old(iter).wf(),
    ensures
        final(iter).wf(),
        r == ascending::<T>(views_of(old(iter).remaining())),
{
    let ghost whole = old(iter).remaining();
    let ghost ks = views_of(whole);
    proof {
        assert(whole.skip(0) =~= whole);
        assert(whole.skip(1) =~= whole.drop_first());
    }
    let mut o_previous = iter.next();
    let ghost mut yielded: int = if o_previous is Some {
        1
    } else {
        0
    };
    loop
        invariant
            whole == old(iter).remaining(),
            ks == views_of(whole),
            ks.len() == whole.len(),
            iter.wf(),
            0 <= yielded <= whole.len(),
            iter.remaining() == whole.skip(yielded),
            match o_previous {
                Some(p) => yielded >= 1 && *p == whole[yielded - 1],
                None => yielded == whole.len(),
            },
            forall|i: int, j: int| 0 <= i < j < yielded ==> #[trigger] T::below(ks[i], ks[j]),
        decreases whole.len() - yielded,
    {
        let previous = match o_previous {
            Some(p) => p,
            None => {
                proof {
                    crate::order::lemma_views_len::<T>(whole);
                    assert(ks.len() == whole.len());
                    assert forall|i: int, j: int| 0 <= i < j < ks.len() implies #[trigger] T::below(
                        ks[i],
                        ks[j],
                    ) by {
                        assert(0 <= i < j < yielded);
                    }
                    assert(ascending::<T>(ks));
                }
                return true;
            },
        };
        proof {
            assert(whole.skip(yielded).len() == whole.len() - yielded);
            if yielded < whole.len() {
                assert(whole.skip(yielded)[0] == whole[yielded]);
            }
        }
        match iter.next() {
            Some(item) => {
                proof {
                    assert(whole.skip(yielded).drop_first() =~= whole.skip(yielded + 1));
                }
                if !previous.lt(item) {
                    proof {
                        assert(ks[yielded - 1] == whole[yielded - 1].deep_view());
                        assert(ks[yielded] == whole[yielded].deep_view());
                        if ascending::<T>(ks) {
                            assert(T::below(ks[yielded - 1], ks[yielded]));
                        }
                    }
                    return false;
                }
                proof {
                    assert(ks[yielded - 1] == whole[yielded - 1].deep_view());
                    assert(ks[yielded] == whole[yielded].deep_view());
                    yielded = yielded + 1;
                    crate::order::lemma_order_laws::<T>();
                    assert forall|i: int, j: int| 0 <= i < j < yielded implies #[trigger] T::below(
                        ks[i],
                        ks[j],
                    ) by {
                        if j == yielded - 1 && i < j - 1 {
                            assert(T::below(ks[i], ks[j - 1]));
                            assert(T::below(ks[j - 1], ks[j]));
                        }
                    }
                }
                o_previous = Some(item);
            },
            None => {
                proof {
                    assert forall|i: int, j: int| 0 <= i < j < ks.len() implies #[trigger] T::below(
                        ks[i],
                        ks[j],
                    ) by {
                        assert(0 <= i < j < yielded);
                    }
                }
                return true;
            },
        }
    }
}

/// For a set iterator the protocol's keys are the remaining elements
/// themselves, and protocol validity is the cursor bound.
pub broadcast proof fn lemma_set_iter_protocol<'a, T: TotalOrder>(it: SetIter<'a, T>)
    ensures
        #[trigger] it.rem_keys() == it.remaining(),
        it.valid() == it.wf(),
{
}

/// The key/value pairs formed by walking two parallel sequences together.
pub open spec fn pairs_of<K, V>(ks: Seq<K>, vs: Seq<V>) -> Seq<(K, V)>
    recommends
        ks.len() == vs.len(),
{
    Seq::new(ks.len(), |i: int| (ks[i], vs[i]))
}

/// Materialise what a pair iterator has left into an owned vector of pairs.
pub trait ToTupleList<K: Duplicable, V: Duplicable>: Sized {
    /// The pairs not yet yielded, in key order.
    spec fn rem_pairs(self) -> Seq<(K, V)>;

    /// The iterator's cursor is within bounds.
    spec fn pairs_valid(self) -> bool;

    /// Consume the rest of the iterator into a vector of owned pairs.
    fn to_list(&mut self) -> (out: Vec<(K, V)>)
        requires
            old(self).pairs_valid(),
        ensures
            final(self).pairs_valid(),
            out@ == old(self).rem_pairs(),
            final(self).rem_pairs() == Seq::<(K, V)>::empty(),
    ;
}

/// Materialise what a pair iterator has left into an [`OrderedMap`].
pub trait ToMap<K: TotalOrder + Duplicable, V: Duplicable>: ToTupleList<K, V> {
    /// Consume the rest of the iterator, whose keys must still be
    /// ascending, into a map holding exactly those pairs.
    fn to_map(&mut self) -> (out: OrderedMap<K, V>)
        requires
            old(self).pairs_valid(),
            ascending::<K>(views_of(old(self).rem_pairs().map_values(|p: (K, V)| p.0))),
        ensures
            final(self).pairs_valid(),
            out.key_seq() == old(self).rem_pairs().map_values(|p: (K, V)| p.0),
            out.val_seq() == old(self).rem_pairs().map_values(|p: (K, V)| p.1),
            out.wf(),
            final(self).rem_pairs() == Seq::<(K, V)>::empty(),
    ;
}

// MAP ITERATOR

/// An iterator over the pairs of an ordered map: parallel key and value
/// slices and one cursor.
pub struct MapIter<'a, K: TotalOrder, V> {
    keys: &'a [K],
    values: &'a [V],
    index: usize,
}

impl<'a, K: TotalOrder, V> MapIter<'a, K, V> {
    /// The keys not yet yielded, in order.
    pub closed spec fn remaining_keys(self) -> Seq<K> {
        self.keys@.skip(self.index as int)
    }

    /// The values not yet yielded, in key order.
    pub closed spec fn remaining_vals(self) -> Seq<V> {
        self.values@.skip(self.index as int)
    }

    /// The cursor is within bounds and the slices are matched.
    pub closed spec fn wf(self) -> bool {
        self.index <= self.keys@.len() && self.keys@.len() == self.values@.len()
    }

    /// An iterator at the start of the matched slices.
    pub fn new(keys: &'a [K], values: &'a [V]) -> (it: Self)
        requires
            keys@.len() == values@.len(),
        ensures
            it.wf(),
            it.remaining_keys() == keys@,
            it.remaining_vals() == values@,
    {
        proof {
            assert(keys@.skip(0) =~= keys@);
            assert(values@.skip(0) =~= values@);
        }
        Self { keys, values, index: 0 }
    }

    /// The next pair without advancing; nothing once exhausted.
    pub fn peek(&self) -> (r: Option<(&'a K, &'a V)>)
        requires
            self.wf(),
        ensures
            match r {
                Some(p) => self.remaining_keys().len() > 0 && *p.0 == self.remaining_keys()[0]
                    && *p.1 == self.remaining_vals()[0],
                None => self.remaining_keys().len() == 0,
            },
    {
        if self.index < self.keys.len() {
            proof {
                assert(self.keys@.skip(self.index as int)[0] == self.keys@[self.index as int]);
                assert(self.values@.skip(self.index as int)[0] == self.values@[self.index as int]);
            }
            Some((&self.keys[self.index], &self.values[self.index]))
        } else {
            None
        }
    }

    /// The next pair, advancing past it; nothing once exhausted.
    pub fn next(&mut self) -> (r: Option<(&'a K, &'a V)>)
        requires
            old(self).wf(),
        ensures
            final(self).wf(),
            match r {
                Some(p) => {
                    &&& old(self).remaining_keys().len() > 0
                    &&& *p.0 == old(self).remaining_keys()[0]
                    &&& *p.1 == old(self).remaining_vals()[0]
                    &&& final(self).remaining_keys() == old(self).remaining_keys().drop_first()
                    &&& final(self).remaining_vals() == old(self).remaining_vals().drop_first()
                },
                None => {
                    &&& old(self).remaining_keys().len() == 0
                    &&& final(self).remaining_keys() == old(self).remaining_keys()
                    &&& final(self).remaining_vals() == old(self).remaining_vals()
                },
            },
    {
        if self.index < self.keys.len() {
            let k = &self.keys[self.index];
            let v = &self.values[self.index];
            proof {
                assert(self.keys@.skip(self.index as int + 1) =~= self.keys@.skip(
                    self.index as int,
                ).drop_first());
                assert(self.values@.skip(self.index as int + 1) =~= self.values@.skip(
                    self.index as int,
                ).drop_first());
                assert(self.keys@.skip(self.index as int)[0] == self.keys@[self.index as int]);
                assert(self.values@.skip(self.index as int)[0] == self.values@[self.index as int]);
            }
            self.index += 1;
            Some((k, v))
        } else {
            None
        }
    }

    /// The next pair whose key is strictly after `t`, discarding every pair
    /// at or before `t` on the way.
    pub fn next_after(&mut self, t: &K) -> (r: Option<(&'a K, &'a V)>)
        requires
            old(self).wf(),
            ascending::<K>(views_of(old(self).remaining_keys())),
        ensures
            final(self).wf(),
            match r {
                Some(p) => {
                    let n = first_after::<K>(views_of(old(self).remaining_keys()), t.deep_view());
                    let rk = old(self).remaining_keys().skip(n);
                    let rv = old(self).remaining_vals().skip(n);
                    &&& rk.len() > 0
                    &&& *p.0 == rk[0]
                    &&& *p.1 == rv[0]
                    &&& final(self).remaining_keys() == rk.drop_first()
                    &&& final(self).remaining_vals() == rv.drop_first()
                },
                None => {
                    let n = first_after::<K>(views_of(old(self).remaining_keys()), t.deep_view());
                    &&& old(self).remaining_keys().skip(n).len() == 0
                    &&& final(self).remaining_keys() == old(self).remaining_keys().skip(n)
                    &&& final(self).remaining_vals() == old(self).remaining_vals().skip(n)
                },
            },
    {
        self.skip_past(t);
        self.next()
    }

    /// The next pair whose key is at or after `t`, discarding every pair
    /// before `t` on the way.
    pub fn next_from(&mut self, t: &K) -> (r: Option<(&'a K, &'a V)>)
        requires
            old(self).wf(),
            ascending::<K>(views_of(old(self).remaining_keys())),
        ensures
            final(self).wf(),
            match r {
                Some(p) => {
                    let n = first_at_or_after::<K>(
                        views_of(old(self).remaining_keys()),
                        t.deep_view(),
                    );
                    let rk = old(self).remaining_keys().skip(n);
                    let rv = old(self).remaining_vals().skip(n);
                    &&& rk.len() > 0
                    &&& *p.0 == rk[0]
                    &&& *p.1 == rv[0]
                    &&& final(self).remaining_keys() == rk.drop_first()
                    &&& final(self).remaining_vals() == rv.drop_first()
                },
                None => {
                    let n = first_at_or_after::<K>(
                        views_of(old(self).remaining_keys()),
                        t.deep_view(),
                    );
                    &&& old(self).remaining_keys().skip(n).len() == 0
                    &&& final(self).remaining_keys() == old(self).remaining_keys().skip(n)
                    &&& final(self).remaining_vals() == old(self).remaining_vals().skip(n)
                },
            },
    {
        self.skip_until(t);
        self.next()
    }
}

impl<'a, K: TotalOrder, V> SkipAheadIterator<K> for MapIter<'a, K, V> {
    closed spec fn rem_keys(self) -> Seq<K> {
        self.remaining_keys()
    }

    closed spec fn valid(self) -> bool {
        self.wf()
    }

    fn skip_past(&mut self, t: &K)
        ensures
            final(self).remaining_vals() == old(self).remaining_vals().skip(
                first_after::<K>(views_of(old(self).remaining_keys()), t.deep_view()),
            ),
    {
        let ghost rem = self.remaining_keys();
        let sub = &self.keys[self.index..self.keys.len()];
        proof {
            assert(sub@ =~= rem);
        }
        let n = after_index(sub, t);
        proof {
            crate::position::lemma_first_after::<K>(views_of(rem), t.deep_view());
            vstd::seq_lib::lemma_seq_skip_of_skip(self.keys@, self.index as int, n as int);
            vstd::seq_lib::lemma_seq_skip_of_skip(self.values@, self.index as int, n as int);
        }
        self.index += n;
    }

    fn skip_until(&mut self, t: &K)
        ensures
            final(self).remaining_vals() == old(self).remaining_vals().skip(
                first_at_or_after::<K>(views_of(old(self).remaining_keys()), t.deep_view()),
            ),
    {
        let ghost rem = self.remaining_keys();
        let sub = &self.keys[self.index..self.keys.len()];
        proof {
            assert(sub@ =~= rem);
        }
        let n = from_index(sub, t);
        proof {
            crate::position::lemma_first_at_or_after::<K>(views_of(rem), t.deep_view());
            vstd::seq_lib::lemma_seq_skip_of_skip(self.keys@, self.index as int, n as int);
            vstd::seq_lib::lemma_seq_skip_of_skip(self.values@, self.index as int, n as int);
        }
        self.index += n;
    }
}

impl<'a, K: TotalOrder + Duplicable, V: Duplicable> ToTupleList<K, V> for MapIter<'a, K, V> {
    closed spec fn rem_pairs(self) -> Seq<(K, V)> {
        pairs_of(self.remaining_keys(), self.remaining_vals())
    }

    closed spec fn pairs_valid(self) -> bool {
        self.wf()
    }

    fn to_list(&mut self) -> (out: Vec<(K, V)>) {
        let mut out: Vec<(K, V)> = Vec::new();
        loop
            invariant
                self.wf(),
                out@ + self.rem_pairs() == old(self).rem_pairs(),
            decreases self.remaining_keys().len(),
        {
            proof {
                assert(self.rem_pairs().len() == self.remaining_keys().len());
            }
            match self.next() {
                Some(p) => {
                    out.push((p.0.duplicate(), p.1.duplicate()));
                    proof {
                        assert(out@ + self.rem_pairs() =~= old(self).rem_pairs());
                    }
                },
                None => {
                    proof {
                        assert(self.rem_pairs() =~= Seq::<(K, V)>::empty());
                        assert(out@ =~= old(self).rem_pairs());
                    }
                    return out;
                },
            }
        }
    }
}

impl<'a, K: TotalOrder + Duplicable, V: Duplicable> ToMap<K, V> for MapIter<'a, K, V> {
    fn to_map(&mut self) -> (out: OrderedMap<K, V>) {
        let ghost goal_keys = old(self).rem_pairs().map_values(|p: (K, V)| p.0);
        let ghost goal_vals = old(self).rem_pairs().map_values(|p: (K, V)| p.1);
        proof {
            assert(goal_keys =~= old(self).remaining_keys());
            assert(goal_vals =~= old(self).remaining_vals());
        }
        let mut out_keys: Vec<K> = Vec::new();
        let mut out_vals: Vec<V> = Vec::new();
        loop
            invariant
                self.wf(),
                out_keys@ + self.remaining_keys() == old(self).remaining_keys(),
                out_vals@ + self.remaining_vals() == old(self).remaining_vals(),
                out_keys@.len() == out_vals@.len(),
                ascending::<K>(views_of(old(self).remaining_keys())),
            decreases self.remaining_keys().len(),
        {
            match self.next() {
                Some(p) => {
                    out_keys.push(p.0.duplicate());
                    out_vals.push(p.1.duplicate());
                    proof {
                        assert(out_keys@ + self.remaining_keys() =~= old(self).remaining_keys());
                        assert(out_vals@ + self.remaining_vals() =~= old(self).remaining_vals());
                    }
                },
                None => {
                    proof {
                        assert(out_keys@ =~= old(self).remaining_keys());
                        assert(out_vals@ =~= old(self).remaining_vals());
                        assert(self.rem_pairs() =~= Seq::<(K, V)>::empty());
                    }
                    return OrderedMap::from_sorted(out_keys, out_vals);
                },
            }
        }
    }
}

// VALUE ITERATOR

/// An iterator over the values of an ordered map, in key order; skips are
/// driven by the keys.
pub struct ValueIter<'a, K: TotalOrder, V> {
    keys: &'a [K],
    values: &'a [V],
    index: usize,
}

impl<'a, K: TotalOrder, V> ValueIter<'a, K, V> {
    /// The keys whose values have not yet been yielded, in order.
    pub closed spec fn remaining_keys(self) -> Seq<K> {
        self.keys@.skip(self.index as int)
    }

    /// The values not yet yielded, in key order.
    pub closed spec fn remaining_vals(self) -> Seq<V> {
        self.values@.skip(self.index as int)
    }

    /// The cursor is within bounds and the slices are matched.
    pub closed spec fn wf(self) -> bool {
        self.index <= self.keys@.len() && self.keys@.len() == self.values@.len()
    }

    /// An iterator at the start of the matched slices.
    pub fn new(keys: &'a [K], values: &'a [V]) -> (it: Self)
        requires
            keys@.len() == values@.len(),
        ensures
            it.wf(),
            it.remaining_keys() == keys@,
            it.remaining_vals() == values@,
    {
        proof {
            assert(keys@.skip(0) =~= keys@);
            assert(values@.skip(0) =~= values@);
        }
        Self { keys, values, index: 0 }
    }

    /// The next value, advancing past it; nothing once exhausted.
    pub fn next(&mut self) -> (r: Option<&'a V>)
        requires
            old(self).wf(),
        ensures
            final(self).wf(),
            match r {
                Some(v) => {
                    &&& old(self).remaining_vals().len() > 0
                    &&& *v == old(self).remaining_vals()[0]
                    &&& final(self).remaining_keys() == old(self).remaining_keys().drop_first()
                    &&& final(self).remaining_vals() == old(self).remaining_vals().drop_first()
                },
                None => {
                    &&& old(self).remaining_vals().len() == 0
                    &&& final(self).remaining_keys() == old(self).remaining_keys()
                    &&& final(self).remaining_vals() == old(self).remaining_vals()
                },
            },
    {
        if self.index < self.values.len() {
            let v = &self.values[self.index];
            proof {
                assert(self.keys@.skip(self.index as int + 1) =~= self.keys@.skip(
                    self.index as int,
                ).drop_first());
                assert(self.values@.skip(self.index as int + 1) =~= self.values@.skip(
                    self.index as int,
                ).drop_first());
                assert(self.values@.skip(self.index as int)[0] == self.values@[self.index as int]);
            }
            self.index += 1;
            Some(v)
        } else {
            None
        }
    }

    /// The next value whose key is strictly after `t`, discarding the
    /// values of every key at or before `t` on the way.
    pub fn next_after(&mut self, t: &K) -> (r: Option<&'a V>)
        requires
            old(self).wf(),
            ascending::<K>(views_of(old(self).remaining_keys())),
        ensures
            final(self).wf(),
            match r {
                Some(v) => {
                    let n = first_after::<K>(views_of(old(self).remaining_keys()), t.deep_view());
                    let rv = old(self).remaining_vals().skip(n);
                    &&& rv.len() > 0
                    &&& *v == rv[0]
                    &&& final(self).remaining_vals() == rv.drop_first()
                },
                None => {
                    let n = first_after::<K>(views_of(old(self).remaining_keys()), t.deep_view());
                    &&& old(self).remaining_vals().skip(n).len() == 0
                    &&& final(self).remaining_vals() == old(self).remaining_vals().skip(n)
                },
            },
    {
        self.skip_past(t);
        self.next()
    }

    /// The next value whose key is at or after `t`, discarding the values
    /// of every key before `t` on the way.
    pub fn next_from(&mut self, t: &K) -> (r: Option<&'a V>)
        requires
            old(self).wf(),
            ascending::<K>(views_of(old(self).remaining_keys())),
        ensures
            final(self).wf(),
            match r {
                Some(v) => {
                    let n = first_at_or_after::<K>(
                        views_of(old(self).remaining_keys()),
                        t.deep_view(),
                    );
                    let rv = old(self).remaining_vals().skip(n);
                    &&& rv.len() > 0
                    &&& *v == rv[0]
                    &&& final(self).remaining_vals() == rv.drop_first()
                },
                None => {
                    let n = first_at_or_after::<K>(
                        views_of(old(self).remaining_keys()),
                        t.deep_view(),
                    );
                    &&& old(self).remaining_vals().skip(n).len() == 0
                    &&& final(self).remaining_vals() == old(self).remaining_vals().skip(n)
                },
            },
    {
        self.skip_until(t);
        self.next()
    }
}

impl<'a, K: TotalOrder, V> SkipAheadIterator<K> for ValueIter<'a, K, V> {
    closed spec fn rem_keys(self) -> Seq<K> {
        self.remaining_keys()
    }

    closed spec fn valid(self) -> bool {
        self.wf()
    }

    fn skip_past(&mut self, t: &K)
        ensures
            final(self).remaining_vals() == old(self).remaining_vals().skip(
                first_after::<K>(views_of(old(self).remaining_keys()), t.deep_view()),
            ),
    {
        let ghost rem = self.remaining_keys();
        let sub = &self.keys[self.index..self.keys.len()];
        proof {
            assert(sub@ =~= rem);
        }
        let n = after_index(sub, t);
        proof {
            crate::position::lemma_first_after::<K>(views_of(rem), t.deep_view());
            vstd::seq_lib::lemma_seq_skip_of_skip(self.keys@, self.index as int, n as int);
            vstd::seq_lib::lemma_seq_skip_of_skip(self.values@, self.index as int, n as int);
        }
        self.index += n;
    }

    fn skip_until(&mut self, t: &K)
        ensures
            final(self).remaining_vals() == old(self).remaining_vals().skip(
                first_at_or_after::<K>(views_of(old(self).remaining_keys()), t.deep_view()),
            ),
    {
        let ghost rem = self.remaining_keys();
        let sub = &self.keys[self.index..self.keys.len()];
        proof {
            assert(sub@ =~= rem);
        }
        let n = from_index(sub, t);
        proof {
            crate::position::lemma_first_at_or_after::<K>(views_of(rem), t.deep_view());
            vstd::seq_lib::lemma_seq_skip_of_skip(self.keys@, self.index as int, n as int);
            vstd::seq_lib::lemma_seq_skip_of_skip(self.values@, self.index as int, n as int);
        }
        self.index += n;
    }
}

impl<'a, K: TotalOrder, V: Duplicable> ToList<V> for ValueIter<'a, K, V> {
    closed spec fn rem_items(self) -> Seq<V> {
        self.remaining_vals()
    }

    closed spec fn items_valid(self) -> bool {
        self.wf()
    }

    fn to_list(&mut self) -> (out: Vec<V>) {
        let mut out: Vec<V> = Vec::new();
        loop
            invariant
                self.wf(),
                out@ + self.remaining_vals() == old(self).remaining_vals(),
            decreases self.remaining_vals().len(),
        {
            match self.next() {
                Some(v) => {
                    out.push(v.duplicate());
                    proof {
                        assert(out@ + self.remaining_vals() =~= old(self).remaining_vals());
                    }
                },
                None => {
                    proof {
                        assert(out@ =~= old(self).remaining_vals());
                    }
                    return out;
                },
            }
        }
    }
}

/// A well-formed map iterator has one value left for each key left.
pub proof fn lemma_map_iter_lens<'a, K: TotalOrder, V>(it: MapIter<'a, K, V>)
    requires
        it.wf(),
    ensures
        it.remaining_keys().len() == it.remaining_vals().len(),
{
}

// MUT VALUE ITERATOR

/// An iterator handing out exclusive access to the values of an ordered
/// map, in key order; skips are driven by the keys. The slice of values
/// still to come shrinks as the iterator walks, so each value is lent out
/// at most once.
pub struct ValueIterMut<'a, K: TotalOrder, V> {
    keys: &'a [K],
    index: usize,
    vals: &'a mut [V],
}

impl<'a, K: TotalOrder, V> ValueIterMut<'a, K, V> {
    /// The keys whose values have not yet been yielded, in order.
    pub closed spec fn remaining_keys(self) -> Seq<K> {
        self.keys@.skip(self.index as int)
    }

    /// The values not yet yielded, in key order, as they stand now.
    pub closed spec fn remaining_vals(self) -> Seq<V> {
        self.vals@
    }

    /// The cursor is within bounds and one value is left per key left.
    pub closed spec fn wf(self) -> bool {
        self.index <= self.keys@.len() && self.vals@.len() == self.keys@.len() - self.index
    }

    /// An iterator at the start of the matched slices.
    pub fn new(keys: &'a [K], values: &'a mut [V]) -> (it: Self)
        requires
            keys@.len() == old(values)@.len(),
        ensures
            it.wf(),
            it.remaining_keys() == keys@,
            it.remaining_vals() == old(values)@,
    {
        proof {
            assert(keys@.skip(0) =~= keys@);
        }
        Self { keys, index: 0, vals: values }
    }

    /// Exclusive access to the next value, advancing past it; nothing once
    /// exhausted.
    pub fn next(&mut self) -> (r: Option<&'a mut V>)
        requires
            old(self).wf(),
        ensures
            final(self).wf(),
            match r {
                Some(v) => {
                    &&& old(self).remaining_vals().len() > 0
                    &&& *v == old(self).remaining_vals()[0]
                    &&& final(self).remaining_keys() == old(self).remaining_keys().drop_first()
                    &&& final(self).remaining_vals() == old(self).remaining_vals().drop_first()
                },
                None => {
                    &&& old(self).remaining_vals().len() == 0
                    &&& final(self).remaining_keys() == old(self).remaining_keys()
                    &&& final(self).remaining_vals() == old(self).remaining_vals()
                },
            },
    {
        let mut tmp: &'a mut [V] = &mut [];
        core::mem::swap(&mut tmp, &mut self.vals);
        if tmp.len() > 0 {
            let klen = self.keys.len();
            proof {
                assert(tmp@ == old(self).remaining_vals());
                assert(self.index < klen);
            }
            let (head, rest) = tmp.split_at_mut(1);
            proof {
                assert(self.keys@.skip(self.index as int + 1) =~= self.keys@.skip(
                    self.index as int,
                ).drop_first());
            }
            self.vals = rest;
            self.index += 1;
            head.first_mut()
        } else {
            self.vals = tmp;
            None
        }
    }
}

impl<'a, K: TotalOrder, V> ValueIterMut<'a, K, V> {
    /// Exclusive access to the next value whose key is strictly after `t`,
    /// discarding the values of every key at or before `t` on the way.
    pub fn next_after(&mut self, t: &K) -> (r: Option<&'a mut V>)
        requires
            old(self).wf(),
            ascending::<K>(views_of(old(self).remaining_keys())),
        ensures
            final(self).wf(),
            match r {
                Some(v) => {
                    let n = first_after::<K>(views_of(old(self).remaining_keys()), t.deep_view());
                    let rv = old(self).remaining_vals().skip(n);
                    &&& rv.len() > 0
                    &&& *v == rv[0]
                    &&& final(self).remaining_vals() == rv.drop_first()
                },
                None => {
                    let n = first_after::<K>(views_of(old(self).remaining_keys()), t.deep_view());
                    &&& old(self).remaining_vals().skip(n).len() == 0
                    &&& final(self).remaining_vals() == old(self).remaining_vals().skip(n)
                },
            },
    {
        self.skip_past(t);
        self.next()
    }

    /// Exclusive access to the next value whose key is at or after `t`,
    /// discarding the values of every key before `t` on the way.
    pub fn next_from(&mut self, t: &K) -> (r: Option<&'a mut V>)
        requires
            old(self).wf(),
            ascending::<K>(views_of(old(self).remaining_keys())),
        ensures
            final(self).wf(),
            match r {
                Some(v) => {
                    let n = first_at_or_after::<K>(
                        views_of(old(self).remaining_keys()),
                        t.deep_view(),
                    );
                    let rv = old(self).remaining_vals().skip(n);
                    &&& rv.len() > 0
                    &&& *v == rv[0]
                    &&& final(self).remaining_vals() == rv.drop_first()
                },
                None => {
                    let n = first_at_or_after::<K>(
                        views_of(old(self).remaining_keys()),
                        t.deep_view(),
                    );
                    &&& old(self).remaining_vals().skip(n).len() == 0
                    &&& final(self).remaining_vals() == old(self).remaining_vals().skip(n)
                },
            },
    {
        self.skip_until(t);
        self.next()
    }
}

impl<'a, K: TotalOrder, V> SkipAheadIterator<K> for ValueIterMut<'a, K, V> {
    closed spec fn rem_keys(self) -> Seq<K> {
        self.remaining_keys()
    }

    closed spec fn valid(self) -> bool {
        self.wf()
    }

    fn skip_past(&mut self, t: &K)
        ensures
            final(self).remaining_vals() == old(self).remaining_vals().skip(
                first_after::<K>(views_of(old(self).remaining_keys()), t.deep_view()),
            ),
    {
        let ghost remk = self.remaining_keys();
        let sub = &self.keys[self.index..self.keys.len()];
        proof {
            assert(sub@ =~= remk);
        }
        let n = after_index(sub, t);
        let mut tmp: &'a mut [V] = &mut [];
        core::mem::swap(&mut tmp, &mut self.vals);
        proof {
            crate::position::lemma_first_after::<K>(views_of(remk), t.deep_view());
            assert(tmp@ == old(self).remaining_vals());
            vstd::seq_lib::lemma_seq_skip_of_skip(self.keys@, self.index as int, n as int);
        }
        let (_discard, rest) = tmp.split_at_mut(n);
        proof {
            assert(rest@ =~= old(self).remaining_vals().skip(n as int));
        }
        self.vals = rest;
        self.index += n;
    }

    fn skip_until(&mut self, t: &K)
        ensures
            final(self).remaining_vals() == old(self).remaining_vals().skip(
                first_at_or_after::<K>(views_of(old(self).remaining_keys()), t.deep_view()),
            ),
    {
        let ghost remk = self.remaining_keys();
        let sub = &self.keys[self.index..self.keys.len()];
        proof {
            assert(sub@ =~= remk);
        }
        let n = from_index(sub, t);
        let mut tmp: &'a mut [V] = &mut [];
        core::mem::swap(&mut tmp, &mut self.vals);
        proof {
            crate::position::lemma_first_at_or_after::<K>(views_of(remk), t.deep_view());
            assert(tmp@ == old(self).remaining_vals());
            vstd::seq_lib::lemma_seq_skip_of_skip(self.keys@, self.index as int, n as int);
        }
        let (_discard, rest) = tmp.split_at_mut(n);
        proof {
            assert(rest@ =~= old(self).remaining_vals().skip(n as int));
        }
        self.vals = rest;
        self.index += n;
    }
}

// MUT MAP ITERATOR

/// An iterator over the keys of an ordered map paired with exclusive access
/// to their values, in key order.
pub struct MapIterMut<'a, K: TotalOrder, V> {
    keys: &'a [K],
    index: usize,
    vals: &'a mut [V],
}

impl<'a, K: TotalOrder, V> MapIterMut<'a, K, V> {
    /// The keys not yet yielded, in order.
    pub closed spec fn remaining_keys(self) -> Seq<K> {
        self.keys@.skip(self.index as int)
    }

    /// The values not yet yielded, in key order, as they stand now.
    pub closed spec fn remaining_vals(self) -> Seq<V> {
        self.vals@
    }

    /// The cursor is within bounds and one value is left per key left.
    pub closed spec fn wf(self) -> bool {
        self.index <= self.keys@.len() && self.vals@.len() == self.keys@.len() - self.index
    }

    /// An iterator at the start of the matched slices.
    pub fn new(keys: &'a [K], values: &'a mut [V]) -> (it: Self)
        requires
            keys@.len() == old(values)@.len(),
        ensures
            it.wf(),
            it.remaining_keys() == keys@,
            it.remaining_vals() == old(values)@,
    {
        proof {
            assert(keys@.skip(0) =~= keys@);
        }
        Self { keys, index: 0, vals: values }
    }

    /// The next key with exclusive access to its value, advancing past the
    /// pair; nothing once exhausted.
    pub fn next(&mut self) -> (r: Option<(&'a K, &'a mut V)>)
        requires
            old(self).wf(),
        ensures
            final(self).wf(),
            match r {
                Some(p) => {
                    &&& old(self).remaining_keys().len() > 0
                    &&& *p.0 == old(self).remaining_keys()[0]
                    &&& *p.1 == old(self).remaining_vals()[0]
                    &&& final(self).remaining_keys() == old(self).remaining_keys().drop_first()
                    &&& final(self).remaining_vals() == old(self).remaining_vals().drop_first()
                },
                None => {
                    &&& old(self).remaining_keys().len() == 0
                    &&& final(self).remaining_keys() == old(self).remaining_keys()
                    &&& final(self).remaining_vals() == old(self).remaining_vals()
                },
            },
    {
        let mut tmp: &'a mut [V] = &mut [];
        core::mem::swap(&mut tmp, &mut self.vals);
        if tmp.len() > 0 {
            let klen = self.keys.len();
            proof {
                assert(tmp@ == old(self).remaining_vals());
                assert(self.index < klen);
                assert(self.keys@.skip(self.index as int)[0] == self.keys@[self.index as int]);
            }
            let k = &self.keys[self.index];
            let (head, rest) = tmp.split_at_mut(1);
            proof {
                assert(self.keys@.skip(self.index as int + 1) =~= self.keys@.skip(
                    self.index as int,
                ).drop_first());
            }
            self.vals = rest;
            self.index += 1;
            match head.first_mut() {
                Some(v) => Some((k, v)),
                None => None,
            }
        } else {
            self.vals = tmp;
            None
        }
    }

    /// The next pair whose key is strictly after `t`, discarding every pair
    /// at or before `t` on the way.
    pub fn next_after(&mut self, t: &K) -> (r: Option<(&'a K, &'a mut V)>)
        requires
            old(self).wf(),
            ascending::<K>(views_of(old(self).remaining_keys())),
        ensures
            final(self).wf(),
            match r {
                Some(p) => {
                    let n = first_after::<K>(views_of(old(self).remaining_keys()), t.deep_view());
                    let rk = old(self).remaining_keys().skip(n);
                    let rv = old(self).remaining_vals().skip(n);
                    &&& rk.len() > 0
                    &&& *p.0 == rk[0]
                    &&& *p.1 == rv[0]
                    &&& final(self).remaining_keys() == rk.drop_first()
                    &&& final(self).remaining_vals() == rv.drop_first()
                },
                None => {
                    let n = first_after::<K>(views_of(old(self).remaining_keys()), t.deep_view());
                    &&& old(self).remaining_keys().skip(n).len() == 0
                    &&& final(self).remaining_keys() == old(self).remaining_keys().skip(n)
                    &&& final(self).remaining_vals() == old(self).remaining_vals().skip(n)
                },
            },
    {
        self.skip_past(t);
        self.next()
    }

    /// The next pair whose key is at or after `t`, discarding every pair
    /// before `t` on the way.
    pub fn next_from(&mut self, t: &K) -> (r: Option<(&'a K, &'a mut V)>)
        requires
            old(self).wf(),
            ascending::<K>(views_of(old(self).remaining_keys())),
        ensures
            final(self).wf(),
            match r {
                Some(p) => {
                    let n = first_at_or_after::<K>(
                        views_of(old(self).remaining_keys()),
                        t.deep_view(),
                    );
                    let rk = old(self).remaining_keys().skip(n);
                    let rv = old(self).remaining_vals().skip(n);
                    &&& rk.len() > 0
                    &&& *p.0 == rk[0]
                    &&& *p.1 == rv[0]
                    &&& final(self).remaining_keys() == rk.drop_first()
                    &&& final(self).remaining_vals() == rv.drop_first()
                },
                None => {
                    let n = first_at_or_after::<K>(
                        views_of(old(self).remaining_keys()),
                        t.deep_view(),
                    );
                    &&& old(self).remaining_keys().skip(n).len() == 0
                    &&& final(self).remaining_keys() == old(self).remaining_keys().skip(n)
                    &&& final(self).remaining_vals() == old(self).remaining_vals().skip(n)
                },
            },
    {
        self.skip_until(t);
        self.next()
    }
}

impl<'a, K: TotalOrder, V> SkipAheadIterator<K> for MapIterMut<'a, K, V> {
    closed spec fn rem_keys(self) -> Seq<K> {
        self.remaining_keys()
    }

    closed spec fn valid(self) -> bool {
        self.wf()
    }

    fn skip_past(&mut self, t: &K)
        ensures
            final(self).remaining_vals() == old(self).remaining_vals().skip(
                first_after::<K>(views_of(old(self).remaining_keys()), t.deep_view()),
            ),
    {
        let ghost remk = self.remaining_keys();
        let sub = &self.keys[self.index..self.keys.len()];
        proof {
            assert(sub@ =~= remk);
        }
        let n = after_index(sub, t);
        let mut tmp: &'a mut [V] = &mut [];
        core::mem::swap(&mut tmp, &mut self.vals);
        proof {
            crate::position::lemma_first_after::<K>(views_of(remk), t.deep_view());
            assert(tmp@ == old(self).remaining_vals());
            vstd::seq_lib::lemma_seq_skip_of_skip(self.keys@, self.index as int, n as int);
        }
        let (_discard, rest) = tmp.split_at_mut(n);
        proof {
            assert(rest@ =~= old(self).remaining_vals().skip(n as int));
        }
        self.vals = rest;
        self.index += n;
    }

    fn skip_until(&mut self, t: &K)
        ensures
            final(self).remaining_vals() == old(self).remaining_vals().skip(
                first_at_or_after::<K>(views_of(old(self).remaining_keys()), t.deep_view()),
            ),
    {
        let ghost remk = self.remaining_keys();
        let sub = &self.keys[self.index..self.keys.len()];
        proof {
            assert(sub@ =~= remk);
        }
        let n = from_index(sub, t);
        let mut tmp: &'a mut [V] = &mut [];
        core::mem::swap(&mut tmp, &mut self.vals);
        proof {
            crate::position::lemma_first_at_or_after::<K>(views_of(remk), t.deep_view());
            assert(tmp@ == old(self).remaining_vals());
            vstd::seq_lib::lemma_seq_skip_of_skip(self.keys@, self.index as int, n as int);
        }
        let (_discard, rest) = tmp.split_at_mut(n);
        proof {
            assert(rest@ =~= old(self).remaining_vals().skip(n as int));
        }
        self.vals = rest;
        self.index += n;
    }
}

/// For a set iterator the materialisable items are the remaining elements
/// themselves.
pub broadcast proof fn lemma_set_iter_items<'a, T: TotalOrder + Duplicable>(it: SetIter<'a, T>)
    ensures
        #[trigger] it.rem_items() == it.remaining(),
        it.items_valid() == it.wf(),
{
}

/// For a map iterator the materialisable pairs walk the remaining keys and
/// values together.
pub broadcast proof fn lemma_map_iter_pairs<'a, K: TotalOrder + Duplicable, V: Duplicable>(
    it: MapIter<'a, K, V>,
)
    ensures
        #[trigger] it.rem_pairs() == pairs_of(it.remaining_keys(), it.remaining_vals()),
        it.pairs_valid() == it.wf(),
{
}

/// For a value iterator the materialisable items are the remaining values.
pub broadcast proof fn lemma_value_iter_items<'a, K: TotalOrder, V: Duplicable>(
    it: ValueIter<'a, K, V>,
)
    ensures
        #[trigger] it.rem_items() == it.remaining_vals(),
        it.items_valid() == it.wf(),
{
}


/// For a map iterator the protocol's keys are the remaining keys, and
/// protocol validity is the cursor bound.
pub broadcast proof fn lemma_map_iter_protocol<'a, K: TotalOrder, V>(it: MapIter<'a, K, V>)
    ensures
        #[trigger] it.rem_keys() == it.remaining_keys(),
        it.valid() == it.wf(),
{
}

} // verus!
