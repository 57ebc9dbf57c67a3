//! A map from keys to values kept as two parallel vectors.
//!
//! The key vector's views are strictly ascending and `values[i]` belongs to
//! `keys[i]`. Lookup is one binary search; insertion and removal shift both
//! vectors in lockstep. Inserting over an existing key replaces only the
//! value: the key first stored stays.

use vstd::prelude::*;

use crate::order::{
    ascending, lemma_ascending_insert, lemma_ascending_remove, lemma_order_laws,
    lemma_views_insert, lemma_views_remove, views_of, TotalOrder,
};
use crate::iter_ops::MapMergeIter;
use crate::ordered_iterators::{MapIter, MapIterMut, SetIter, ValueIter, ValueIterMut};
use crate::ordered_set::vec_capacity;
use crate::position::{
    after_index, first_after, first_at_or_after, from_index, lemma_first_after,
    lemma_first_at_or_after,
};

verus! {

broadcast use crate::order::group_views_axioms;

/// An ordered map: a vector of keys whose views are strictly ascending and
/// a vector of their values, in lockstep.
#[derive(Debug)]
pub struct OrderedMap<K: TotalOrder, V> {
    pub(crate) keys: Vec<K>,
    pub(crate) values: Vec<V>,
}

impl<K: TotalOrder, V> OrderedMap<K, V> {
    /// The stored keys, in order.
    pub closed spec fn key_seq(self) -> Seq<K> {
        self.keys@
    }

    /// The stored values, in key order.
    pub closed spec fn val_seq(self) -> Seq<V> {
        self.values@
    }

    /// The structural invariant: key views ascend strictly and every key
    /// has its value.
    pub open spec fn wf(self) -> bool {
        ascending::<K>(views_of(self.key_seq())) && self.val_seq().len() == self.key_seq().len()
    }

    /// The view of `x` is the view of some stored key.
    pub open spec fn has_key(self, x: K::V) -> bool {
        views_of(self.key_seq()).contains(x)
    }

    /// Where the key with view `x` sits, or where it would be inserted.
    pub open spec fn index_of(self, x: K::V) -> int {
        first_at_or_after::<K>(views_of(self.key_seq()), x)
    }

    /// An empty map.
    pub fn new() -> (m: Self)
        ensures
            m.key_seq() == Seq::<K>::empty(),
            m.val_seq() == Seq::<V>::empty(),
            m.wf(),
    {
        Self { keys: Vec::new(), values: Vec::new() }
    }

    /// A map over key and value vectors that are already matched in length
    /// and sorted by key. The claim of sortedness is the caller's; it is
    /// not re-examined.
    pub fn from_sorted(keys: Vec<K>, values: Vec<V>) -> (m: Self)
        requires
            ascending::<K>(views_of(keys@)),
            keys@.len() == values@.len(),
        ensures
            m.key_seq() == keys@,
            m.val_seq() == values@,
            m.wf(),
    {
        Self { keys, values }
    }

    /// The number of keys.
    pub fn len(&self) -> (n: usize)
        ensures
            n == self.key_seq().len(),
    {
        self.keys.len()
    }

    /// Whether the map has no keys.
    pub fn is_empty(&self) -> (e: bool)
        ensures
            e == (self.key_seq().len() == 0),
    {
        self.keys.len() == 0
    }

    /// How many entries the map can hold without reallocating either
    /// vector: at least as many as it has.
    pub fn capacity(&self) -> (c: usize)
        requires
            self.wf(),
        ensures
            c >= self.key_seq().len(),
    {
        let ck = vec_capacity(&self.keys);
        let cv = vec_capacity(&self.values);
        if ck < cv {
            ck
        } else {
            cv
        }
    }

    /// Remove every entry.
    pub fn clear(&mut self)
        ensures
            final(self).key_seq() == Seq::<K>::empty(),
            final(self).val_seq() == Seq::<V>::empty(),
            final(self).wf(),
    {
        self.keys.clear();
        self.values.clear();
    }

    /// Whether some stored key's view is that of `key`.
    pub fn contains_key(&self, key: &K) -> (r: bool)
        requires
            self.wf(),
        ensures
            r == self.has_key(key.deep_view()),
    {
        let ghost ks = views_of(self.keys@);
        let ghost x = key.deep_view();
        let idx = from_index(self.keys.as_slice(), key);
        proof {
            lemma_first_at_or_after::<K>(ks, x);
            lemma_order_laws::<K>();
        }
        if idx < self.keys.len() && !key.lt(&self.keys[idx]) {
            proof {
                assert(ks[idx as int] == x);
            }
            true
        } else {
            proof {
                Self::lemma_missing(&*self, x);
            }
            false
        }
    }

    /// The value stored under the key whose view is that of `key`, or
    /// nothing when there is no such key.
    pub fn get(&self, key: &K) -> (r: Option<&V>)
        requires
            self.wf(),
        ensures
            match r {
                Some(v) => self.has_key(key.deep_view()) && *v == self.val_seq()[self.index_of(key.deep_view())],
                None => !self.has_key(key.deep_view()),
            },
    {
        let ghost ks = views_of(self.keys@);
        let ghost x = key.deep_view();
        let idx = from_index(self.keys.as_slice(), key);
        proof {
            lemma_first_at_or_after::<K>(ks, x);
            lemma_order_laws::<K>();
        }
        if idx < self.keys.len() && !key.lt(&self.keys[idx]) {
            proof {
                assert(ks[idx as int] == x);
            }
            Some(&self.values[idx])
        } else {
            proof {
                Self::lemma_missing(&*self, x);
            }
            None
        }
    }

    /// Exclusive access to the value stored under the key whose view is
    /// that of `key`, or nothing when there is no such key. Only that one
    /// value can change through the result.
    pub fn get_mut(&mut self, key: &K) -> (r: Option<&mut V>)
        requires
            old(self).wf(),
        ensures
            match r {
                Some(v) => {
                    &&& old(self).has_key(key.deep_view())
                    &&& *v == old(self).val_seq()[old(self).index_of(key.deep_view())]
                    &&& final(self).key_seq() == old(self).key_seq()
                    &&& final(self).val_seq() == old(self).val_seq().update(
                        old(self).index_of(key.deep_view()),
                        *final(v),
                    )
                    &&& final(self).wf()
                },
                None => {
                    &&& !old(self).has_key(key.deep_view())
                    &&& *final(self) == *old(self)
                    &&& final(self).wf()
                },
            },
    {
        let ghost ks = views_of(self.keys@);
        let ghost x = key.deep_view();
        let idx = from_index(self.keys.as_slice(), key);
        proof {
            lemma_first_at_or_after::<K>(ks, x);
            lemma_order_laws::<K>();
        }
        if idx < self.keys.len() && !key.lt(&self.keys[idx]) {
            proof {
                assert(ks[idx as int] == x);
            }
            Some(&mut self.values[idx])
        } else {
            proof {
                Self::lemma_missing(&*self, x);
            }
            None
        }
    }

    /// Store `value` under `key`. When a stored key shares its view, only
    /// the value is replaced — the key first stored stays — and the prior
    /// value comes back. Otherwise key and value enter at the ordered
    /// position and nothing comes back.
    pub fn insert(&mut self, key: K, value: V) -> (r: Option<V>)
        requires
            old(self).wf(),
        ensures
            final(self).wf(),
            match r {
                Some(prior) => {
                    &&& old(self).has_key(key.deep_view())
                    &&& prior == old(self).val_seq()[old(self).index_of(key.deep_view())]
                    &&& final(self).key_seq() == old(self).key_seq()
                    &&& final(self).val_seq() == old(self).val_seq().update(
                        old(self).index_of(key.deep_view()),
                        value,
                    )
                },
                None => {
                    &&& !old(self).has_key(key.deep_view())
                    &&& final(self).key_seq() == old(self).key_seq().insert(
                        old(self).index_of(key.deep_view()),
                        key,
                    )
                    &&& final(self).val_seq() == old(self).val_seq().insert(
                        old(self).index_of(key.deep_view()),
                        value,
                    )
                },
            },
    {
        let ghost ks = views_of(self.keys@);
        let ghost x = key.deep_view();
        let idx = from_index(self.keys.as_slice(), &key);
        proof {
            lemma_first_at_or_after::<K>(ks, x);
            lemma_order_laws::<K>();
        }
        if idx < self.keys.len() && !key.lt(&self.keys[idx]) {
            proof {
                assert(ks[idx as int] == x);
            }
            let prior = self.values.remove(idx);
            self.values.insert(idx, value);
            proof {
                assert(self.values@ =~= old(self).values@.update(idx as int, value));
            }
            Some(prior)
        } else {
            proof {
                Self::lemma_missing(&*self, x);
                lemma_views_insert(self.keys@, idx as int, key);
                lemma_ascending_insert::<K>(ks, x, idx as int);
            }
            self.keys.insert(idx, key);
            self.values.insert(idx, value);
            None
        }
    }

    /// Remove the entry whose key's view is that of `key`, handing back its
    /// value; removing an absent key changes nothing.
    pub fn remove(&mut self, key: &K) -> (r: Option<V>)
        requires
            old(self).wf(),
        ensures
            final(self).wf(),
            match r {
                Some(v) => {
                    &&& old(self).has_key(key.deep_view())
                    &&& v == old(self).val_seq()[old(self).index_of(key.deep_view())]
                    &&& final(self).key_seq() == old(self).key_seq().remove(
                        old(self).index_of(key.deep_view()),
                    )
                    &&& final(self).val_seq() == old(self).val_seq().remove(
                        old(self).index_of(key.deep_view()),
                    )
                },
                None => {
                    &&& !old(self).has_key(key.deep_view())
                    &&& *final(self) == *old(self)
                },
            },
    {
        let ghost ks = views_of(self.keys@);
        let ghost x = key.deep_view();
        let idx = from_index(self.keys.as_slice(), key);
        proof {
            lemma_first_at_or_after::<K>(ks, x);
            lemma_order_laws::<K>();
        }
        if idx < self.keys.len() && !key.lt(&self.keys[idx]) {
            proof {
                assert(ks[idx as int] == x);
                lemma_views_remove(self.keys@, idx as int);
                lemma_ascending_remove::<K>(ks, idx as int);
            }
            self.keys.remove(idx);
            Some(self.values.remove(idx))
        } else {
            proof {
                Self::lemma_missing(&*self, x);
            }
            None
        }
    }

    /// Whether the stored keys really are strictly ascending and matched by
    /// exactly one value each: a diagnostic re-examination of the invariant
    /// that every operation preserves.
    pub fn is_valid(&self) -> (r: bool)
        ensures
            r == self.wf(),
    {
        let ghost ks = views_of(self.keys@);
        let mut i: usize = 1;
        while i < self.keys.len()
            invariant
                1 <= i,
                i <= ks.len() || ks.len() == 0,
                ks == views_of(self.keys@),
                forall|m: int| 0 <= m < i - 1 && m < ks.len() - 1 ==> #[trigger] K::below(
                    ks[m],
                    ks[m + 1],
                ),
            decreases self.keys.len() - i,
        {
            if !self.keys[i - 1].lt(&self.keys[i]) {
                proof {
                    if ascending::<K>(ks) {
                        assert(K::below(ks[i as int - 1], ks[i as int]));
                    }
                }
                return false;
            }
            i += 1;
        }
        proof {
            crate::order::lemma_adjacent_implies_ascending::<K>(ks);
        }
        self.keys.len() == self.values.len()
    }

    /// When the binary search lands past the end, or on a key the probe is
    /// still below, no stored key has the probe's view.
    proof fn lemma_missing(m: &OrderedMap<K, V>, x: K::V)
        requires
            m.wf(),
            ({
                let idx = first_at_or_after::<K>(views_of(m.key_seq()), x);
                idx == views_of(m.key_seq()).len() || K::below(x, views_of(m.key_seq())[idx])
            }),
        ensures
            !m.has_key(x),
    {
        let ks = views_of(m.key_seq());
        let idx = first_at_or_after::<K>(ks, x);
        lemma_first_at_or_after::<K>(ks, x);
        lemma_order_laws::<K>();
        assert forall|i: int| 0 <= i < ks.len() implies ks[i] != x by {
            if i < idx {
                assert(K::below(ks[i], x));
            } else if i == idx {
                assert(K::below(x, ks[i]));
            } else {
                assert(K::below(x, ks[idx]));
                assert(K::below(ks[idx], ks[i]));
            }
        }
    }
}

impl<K: TotalOrder, V> OrderedMap<K, V> {
    /// An iterator over the pairs, in key order.
    pub fn iter(&self) -> (it: MapIter<'_, K, V>)
        requires
            self.wf(),
        ensures
            it.wf(),
            it.remaining_keys() == self.key_seq(),
            it.remaining_vals() == self.val_seq(),
    {
        MapIter::new(self.keys.as_slice(), self.values.as_slice())
    }

    /// An iterator over the pairs whose keys come strictly after `key`.
    pub fn iter_after(&self, key: &K) -> (it: MapIter<'_, K, V>)
        requires
            self.wf(),
        ensures
            it.wf(),
            it.remaining_keys() == self.key_seq().skip(
                first_after::<K>(views_of(self.key_seq()), key.deep_view()),
            ),
            it.remaining_vals() == self.val_seq().skip(
                first_after::<K>(views_of(self.key_seq()), key.deep_view()),
            ),
    {
        let i = after_index(self.keys.as_slice(), key);
        proof {
            lemma_first_after::<K>(views_of(self.keys@), key.deep_view());
            assert(self.keys@.subrange(i as int, self.keys@.len() as int) =~= self.keys@.skip(
                i as int,
            ));
            assert(self.values@.subrange(i as int, self.values@.len() as int)
                =~= self.values@.skip(i as int));
        }
        MapIter::new(&self.keys[i..self.keys.len()], &self.values[i..self.values.len()])
    }

    /// An iterator over the keys alone, in order.
    pub fn keys(&self) -> (it: SetIter<'_, K>)
        ensures
            it.wf(),
            it.remaining() == self.key_seq(),
    {
        SetIter::new(self.keys.as_slice())
    }

    /// An iterator over the values alone, in key order.
    pub fn values(&self) -> (it: ValueIter<'_, K, V>)
        requires
            self.wf(),
        ensures
            it.wf(),
            it.remaining_keys() == self.key_seq(),
            it.remaining_vals() == self.val_seq(),
    {
        ValueIter::new(self.keys.as_slice(), self.values.as_slice())
    }

    /// An iterator over the keys paired with exclusive access to their
    /// values, in key order. While it lives, the map can change only
    /// through it, and only in the values it hands out.
    pub fn iter_mut(&mut self) -> (it: MapIterMut<'_, K, V>)
        requires
            old(self).wf(),
        ensures
            it.wf(),
            it.remaining_keys() == old(self).key_seq(),
            it.remaining_vals() == old(self).val_seq(),
            final(self).key_seq() == old(self).key_seq(),
    {
        MapIterMut::new(self.keys.as_slice(), self.values.as_mut_slice())
    }

    /// An iterator handing out exclusive access to the values, in key
    /// order. While it lives, the map can change only through it, and only
    /// in the values it hands out.
    pub fn values_mut(&mut self) -> (it: ValueIterMut<'_, K, V>)
        requires
            old(self).wf(),
        ensures
            it.wf(),
            it.remaining_keys() == old(self).key_seq(),
            it.remaining_vals() == old(self).val_seq(),
            final(self).key_seq() == old(self).key_seq(),
    {
        ValueIterMut::new(self.keys.as_slice(), self.values.as_mut_slice())
    }

    /// The lazy left-biased union of two maps: every key of either, in
    /// order, each with its value — this map's value where both have the
    /// key.
    pub fn merge<'a>(&'a self, other: &'a Self) -> (it: MapMergeIter<'a, K, V>)
        requires
            self.wf(),
            other.wf(),
        ensures
            it.wf(),
            it.srt(),
            it.left_keys() == self.key_seq(),
            it.left_vals() == self.val_seq(),
            it.right_keys() == other.key_seq(),
            it.right_vals() == other.val_seq(),
    {
        MapMergeIter::new(self.iter(), other.iter())
    }
}

/// The stored key sequence is the key vector: the bridge the entry module
/// proves its contracts through.
pub(crate) broadcast proof fn lemma_repr_keys<K: TotalOrder, V>(m: OrderedMap<K, V>)
    ensures
        #[trigger] m.key_seq() == m.keys@,
{
}

/// The stored value sequence is the value vector.
pub(crate) broadcast proof fn lemma_repr_vals<K: TotalOrder, V>(m: OrderedMap<K, V>)
    ensures
        #[trigger] m.val_seq() == m.values@,
{
}

/// The representation facts of the map, available together.
pub(crate) broadcast group group_map_repr {
    lemma_repr_keys,
    lemma_repr_vals,
}

impl<K: TotalOrder, V> Default for OrderedMap<K, V> {
    /// An empty map.
    fn default() -> (m: Self)
        ensures
            m.key_seq() == Seq::<K>::empty(),
            m.val_seq() == Seq::<V>::empty(),
            m.wf(),
    {
        Self { keys: Vec::new(), values: Vec::new() }
    }
}

/// The keys of a pair sequence, in pair order.
pub open spec fn pair_keys<K: TotalOrder, V>(pairs: Seq<(K, V)>) -> Seq<K> {
    pairs.map_values(|p: (K, V)| p.0)
}

/// The value of the last pair in `pairs` whose key has view `v`: the value
/// that repeated insertion in pair order leaves behind.
pub open spec fn last_value_for<K: TotalOrder, V>(pairs: Seq<(K, V)>, v: K::V) -> V
    recommends
        views_of(pair_keys(pairs)).contains(v),
    decreases pairs.len(),
{
    if pairs.len() == 0 {
        arbitrary()
    } else if pairs.last().0.deep_view() == v {
        pairs.last().1
    } else {
        last_value_for(pairs.drop_last(), v)
    }
}

/// Where the searched view is below the inserted one, the search lands
/// where it did; where it is not, the landing shifts right by one.
proof fn lemma_index_after_insert<K: TotalOrder>(ks: Seq<K::V>, x: K::V, v: K::V)
    requires
        ascending::<K>(ks),
        ({
            let idx = first_at_or_after::<K>(ks, x);
            idx == ks.len() || K::below(x, ks[idx])
        }),
    ensures
        ({
            let idx = first_at_or_after::<K>(ks, x);
            let ks2 = ks.insert(idx, x);
            first_at_or_after::<K>(ks2, v) == if K::below(v, x) || v == x {
                first_at_or_after::<K>(ks, v)
            } else {
                first_at_or_after::<K>(ks, v) + 1
            }
        }),
{
    lemma_order_laws::<K>();
    let idx = first_at_or_after::<K>(ks, x);
    lemma_first_at_or_after::<K>(ks, x);
    let w = first_at_or_after::<K>(ks, v);
    lemma_first_at_or_after::<K>(ks, v);
    let ks2 = ks.insert(idx, x);
    ks.insert_ensures(idx, x);
    if K::below(v, x) || v == x {
        // Everything before `w` sat below `v`, hence below `x`, so the
        // insertion point is at or past `w` and the prefix is untouched.
        assert forall|i: int| 0 <= i < w implies K::below(#[trigger] ks2[i], v) by {
            assert(K::below(ks[i], v));
            if i >= idx {
                assert(K::below(ks[i], x));
            }
        }
        if w < ks2.len() {
            if w < idx {
                assert(ks2[w] == ks[w]);
            } else if w == idx {
                assert(ks2[w] == x);
            }
            assert(!K::below(ks2[w], v));
        }
        crate::position::lemma_at_or_after_agrees::<K>(ks2, v, w);
    } else {
        // `x` itself sits below `v`, so the insertion point lies strictly
        // before where `v` lands, shifting it by one.
        assert(K::below(x, v));
        assert forall|i: int| 0 <= i < w + 1 implies K::below(#[trigger] ks2[i], v) by {
            if i < idx {
                assert(K::below(ks[i], v));
            } else if i == idx {
                assert(ks2[i] == x);
            } else {
                assert(ks2[i] == ks[i - 1]);
                assert(K::below(ks[i - 1], v));
            }
        }
        assert(idx <= w) by {
            if idx > w {
                if w < ks.len() {
                    assert(K::below(ks[w], x));
                }
            }
        }
        if w + 1 < ks2.len() {
            assert(ks2[w + 1] == ks[w]);
            assert(!K::below(ks2[w + 1], v));
        }
        crate::position::lemma_at_or_after_agrees::<K>(ks2, v, w + 1);
    }
}

impl<K: TotalOrder, V> OrderedMap<K, V> {
    /// A map built by inserting the pairs in order: it has each key view
    /// that occurs, carrying the value of the last pair with that key —
    /// later pairs supersede earlier ones — under the key instance that
    /// arrived first.
    pub fn from_items(items: Vec<(K, V)>) -> (m: Self)
        ensures
            m.wf(),
            forall|v: K::V| #[trigger] m.has_key(v) <==> views_of(pair_keys(items@)).contains(v),
            forall|v: K::V| #[trigger] m.has_key(v) ==> m.val_seq()[m.index_of(v)]
                == last_value_for(items@, v),
    {
        let ghost whole = items@;
        let mut rest = items;
        let mut m = Self::new();
        proof {
            assert(whole.skip(0) =~= whole);
            assert(views_of(pair_keys(whole.take(0))) =~= Seq::<K::V>::empty());
        }
        while rest.len() > 0
            invariant
                m.wf(),
                rest@ == whole.skip(whole.len() - rest@.len()),
                rest@.len() <= whole.len(),
                forall|v: K::V| #[trigger] m.has_key(v) <==> views_of(
                    pair_keys(whole.take(whole.len() - rest@.len())),
                ).contains(v),
                forall|v: K::V| #[trigger] m.has_key(v) ==> m.val_seq()[m.index_of(v)]
                    == last_value_for(whole.take(whole.len() - rest@.len()), v),
            decreases rest@.len(),
        {
            let ghost before = rest@;
            let ghost mpre = m;
            let ghost n = whole.len() - before.len();
            proof {
                assert forall|v: K::V|
                    mpre.has_key(v) <==> #[trigger] views_of(
                        pair_keys(whole.take(n)),
                    ).contains(v) by {
                    assert(m.has_key(v) <==> views_of(
                        pair_keys(whole.take(whole.len() - rest@.len())),
                    ).contains(v));
                }
                assert forall|v: K::V| #[trigger] mpre.has_key(v) implies mpre.val_seq()[
                    mpre.index_of(v)] == last_value_for(whole.take(n), v) by {
                    assert(m.has_key(v) ==> m.val_seq()[m.index_of(v)] == last_value_for(
                        whole.take(whole.len() - rest@.len()),
                        v,
                    ));
                }
            }
            let (k, val) = rest.remove(0);
            let ghost kv = k.deep_view();
            proof {
                assert(before[0] == whole.skip(n)[0]);
                assert(whole.skip(n)[0] == whole[n]);
                assert(rest@ =~= whole.skip(whole.len() - rest@.len()));
                assert(whole.take(n + 1).last() == whole[n]);
                assert(whole.take(n + 1).drop_last() =~= whole.take(n));
                lemma_order_laws::<K>();
            }
            let ghost ks = views_of(mpre.key_seq());
            let ghost idx = mpre.index_of(kv);
            let prior = m.insert(k, val);
            proof {
                lemma_first_at_or_after::<K>(ks, kv);
                if prior is Some {
                    // The value at the key's slot is replaced; every other
                    // slot and all keys stay.
                    assert(mpre.has_key(kv));
                    crate::position::lemma_found_at(mpre.key_seq(), kv);
                    assert forall|v: K::V| #[trigger] m.has_key(v) <==> views_of(
                        pair_keys(whole.take(n + 1)),
                    ).contains(v) by {
                        lemma_pair_keys_take_snoc::<K, V>(whole, n, v);
                    }
                    assert forall|v: K::V| #[trigger] m.has_key(v) implies m.val_seq()[m.index_of(
                        v,
                    )] == last_value_for(whole.take(n + 1), v) by {
                        if v == kv {
                            assert(m.index_of(v) == idx);
                            assert(m.val_seq()[idx] == whole[n].1);
                            assert(last_value_for(whole.take(n + 1), v) == whole[n].1);
                        } else {
                            assert(mpre.has_key(v));
                            assert(mpre.val_seq()[mpre.index_of(v)] == last_value_for(
                                whole.take(n),
                                v,
                            ));
                            crate::position::lemma_found_at(mpre.key_seq(), v);
                            assert(ks[m.index_of(v)] == v);
                            assert(m.index_of(v) != idx) by {
                                assert(ks[idx] == kv);
                            }
                            assert(m.val_seq()[m.index_of(v)] == mpre.val_seq()[mpre.index_of(
                                v,
                            )]);
                            assert(whole.take(n + 1).drop_last() == whole.take(n));
                            assert(last_value_for(whole.take(n + 1), v) == last_value_for(
                                whole.take(n),
                                v,
                            ));
                        }
                    }
                } else {
                    // A fresh key: it enters at its slot with this pair's
                    // value; the other slots shift around it unchanged.
                    lemma_views_insert(mpre.key_seq(), idx, whole[n].0);
                    if idx < ks.len() {
                        assert(!K::below(ks[idx], kv));
                        assert(ks[idx] != kv) by {
                            if ks[idx] == kv {
                                assert(views_of(mpre.key_seq()).contains(kv));
                            }
                        }
                        assert(K::below(kv, ks[idx]));
                    }
                    assert forall|v: K::V| #[trigger] m.has_key(v) <==> views_of(
                        pair_keys(whole.take(n + 1)),
                    ).contains(v) by {
                        crate::order::lemma_insert_contains(ks, idx, kv, v);
                        lemma_pair_keys_take_snoc::<K, V>(whole, n, v);
                    }
                    assert forall|v: K::V| #[trigger] m.has_key(v) implies m.val_seq()[m.index_of(
                        v,
                    )] == last_value_for(whole.take(n + 1), v) by {
                        lemma_index_after_insert::<K>(ks, kv, v);
                        crate::order::lemma_insert_contains(ks, idx, kv, v);
                        mpre.key_seq().insert_ensures(idx, whole[n].0);
                        mpre.val_seq().insert_ensures(idx, whole[n].1);
                        if v == kv {
                            assert(m.index_of(v) == idx);
                            assert(m.val_seq()[idx] == whole[n].1);
                        } else {
                            assert(mpre.has_key(v));
                            crate::position::lemma_found_at(mpre.key_seq(), v);
                            if K::below(v, kv) {
                                assert(m.index_of(v) == mpre.index_of(v));
                                assert(m.val_seq()[m.index_of(v)] == mpre.val_seq()[mpre.index_of(
                                    v,
                                )]);
                            } else {
                                assert(m.index_of(v) == mpre.index_of(v) + 1);
                                assert(m.val_seq()[m.index_of(v)] == mpre.val_seq()[mpre.index_of(
                                    v,
                                )]);
                            }
                        }
                    }
                }
            }
        }
        proof {
            assert(whole.take(whole.len() as int) =~= whole);
        }
        m
    }
}

/// A key view occurs among the first `n + 1` pairs exactly when it occurs
/// among the first `n` or is the key view of the pair at `n`.
proof fn lemma_pair_keys_take_snoc<K: TotalOrder, V>(pairs: Seq<(K, V)>, n: int, v: K::V)
    requires
        0 <= n < pairs.len(),
    ensures
        views_of(pair_keys(pairs.take(n + 1))).contains(v) <==> (views_of(
            pair_keys(pairs.take(n)),
        ).contains(v) || v == pairs[n].0.deep_view()),
{
    let a = views_of(pair_keys(pairs.take(n + 1)));
    let b = views_of(pair_keys(pairs.take(n)));
    if a.contains(v) {
        let i = choose|i: int| 0 <= i < a.len() && a[i] == v;
        if i < n {
            assert(b[i] == v);
        } else {
            assert(pairs.take(n + 1)[i] == pairs[n]);
        }
    }
    if b.contains(v) {
        let i = choose|i: int| 0 <= i < b.len() && b[i] == v;
        assert(a[i] == v);
    }
    if v == pairs[n].0.deep_view() {
        assert(a[n] == v);
    }
}

} // verus!
