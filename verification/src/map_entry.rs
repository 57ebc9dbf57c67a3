//! The entry API: one binary search, then insert or update without a
//! second.
//!
//! `OrderedMap::entry` performs the lookup once and hands back a token that
//! records its outcome — the key found at a known index, or the key absent
//! together with the index where it belongs. The token's operations take
//! the map again by `&mut`; a token must be used against the map state it
//! was made from ([`Entry::fits`]), so it is spent before any other
//! structural mutation.

use vstd::prelude::*;

use crate::order::{
    lemma_ascending_insert, lemma_order_laws, lemma_views_insert, views_of, TotalOrder,
};
use crate::ordered_map::OrderedMap;
use crate::position::{first_at_or_after, from_index, lemma_first_at_or_after};

verus! {

broadcast use crate::order::group_views_axioms, crate::ordered_map::group_map_repr;

/// The outcome of a lookup that found its key: the key and the index it
/// occupies.
pub struct OccupiedEntry<K: TotalOrder> {
    key: K,
    index: usize,
}

/// The outcome of a lookup that missed: the key and the index at which it
/// would be inserted.
pub struct VacantEntry<K: TotalOrder> {
    key: K,
    index: usize,
}

/// The outcome of one lookup against a map.
pub enum Entry<K: TotalOrder> {
    Occupied(OccupiedEntry<K>),
    Vacant(VacantEntry<K>),
}

impl<K: TotalOrder> OccupiedEntry<K> {
    /// The key looked up.
    pub closed spec fn spec_key(self) -> K {
        self.key
    }

    /// The index the found key occupies.
    pub closed spec fn spec_index(self) -> int {
        self.index as int
    }

    /// The token records a lookup hit against this map state.
    pub open spec fn fits<V>(self, m: OrderedMap<K, V>) -> bool {
        &&& m.has_key(self.spec_key().deep_view())
        &&& self.spec_index() == m.index_of(self.spec_key().deep_view())
    }

    /// The key looked up.
    pub fn key(&self) -> (k: &K)
        ensures
            *k == self.spec_key(),
    {
        &self.key
    }

    /// Exclusive access to the found value, consuming the token.
    pub fn into_mut<'m, V>(self, map: &'m mut OrderedMap<K, V>) -> (v: &'m mut V)
        requires
            old(map).wf(),
            self.fits(*old(map)),
        ensures
            *v == old(map).val_seq()[self.spec_index()],
            final(map).key_seq() == old(map).key_seq(),
            final(map).val_seq() == old(map).val_seq().update(self.spec_index(), *final(v)),
            final(map).wf(),
    {
        proof {
            map_found(&*map, self.spec_key().deep_view());
        }
        &mut map.values[self.index]
    }

    /// Exclusive access to the found value, keeping the token.
    pub fn get_mut<'m, V>(&self, map: &'m mut OrderedMap<K, V>) -> (v: &'m mut V)
        requires
            old(map).wf(),
            self.fits(*old(map)),
        ensures
            *v == old(map).val_seq()[self.spec_index()],
            final(map).key_seq() == old(map).key_seq(),
            final(map).val_seq() == old(map).val_seq().update(self.spec_index(), *final(v)),
            final(map).wf(),
    {
        proof {
            map_found(&*map, self.spec_key().deep_view());
        }
        &mut map.values[self.index]
    }
}

impl<K: TotalOrder> VacantEntry<K> {
    /// The key looked up.
    pub closed spec fn spec_key(self) -> K {
        self.key
    }

    /// The index at which the key belongs.
    pub closed spec fn spec_index(self) -> int {
        self.index as int
    }

    /// The token records a lookup miss against this map state.
    pub open spec fn fits<V>(self, m: OrderedMap<K, V>) -> bool {
        &&& !m.has_key(self.spec_key().deep_view())
        &&& self.spec_index() == m.index_of(self.spec_key().deep_view())
    }

    /// The key looked up.
    pub fn key(&self) -> (k: &K)
        ensures
            *k == self.spec_key(),
    {
        &self.key
    }

    /// Insert the key with `value` at the recorded index, without a second
    /// search, and hand back exclusive access to the stored value.
    pub fn insert<'m, V>(self, map: &'m mut OrderedMap<K, V>, value: V) -> (v: &'m mut V)
        requires
            old(map).wf(),
            self.fits(*old(map)),
        ensures
            *v == value,
            final(map).key_seq() == old(map).key_seq().insert(self.spec_index(), self.spec_key()),
            final(map).val_seq() == old(map).val_seq().insert(self.spec_index(), *final(v)),
            final(map).wf(),
    {
        let ghost ks = views_of(old(map).key_seq());
        let ghost x = self.spec_key().deep_view();
        proof {
            lemma_first_at_or_after::<K>(ks, x);
            lemma_order_laws::<K>();
            assert forall|i: int| 0 <= i < self.spec_index() implies K::below(
                #[trigger] ks[i],
                x,
            ) by {}
            if self.spec_index() < ks.len() {
                assert(!K::below(ks[self.spec_index()], x));
                assert(ks[self.spec_index()] != x) by {
                    if ks[self.spec_index()] == x {
                        assert(views_of(old(map).key_seq()).contains(x));
                    }
                }
                assert(K::below(x, ks[self.spec_index()]));
            }
            lemma_views_insert(old(map).key_seq(), self.spec_index(), self.spec_key());
            lemma_ascending_insert::<K>(ks, x, self.spec_index());
        }
        map.keys.insert(self.index, self.key);
        map.values.insert(self.index, value);
        &mut map.values[self.index]
    }
}

impl<K: TotalOrder> Entry<K> {
    /// The key looked up, whichever the outcome.
    pub open spec fn spec_key(self) -> K {
        match self {
            Entry::Occupied(e) => e.spec_key(),
            Entry::Vacant(e) => e.spec_key(),
        }
    }

    /// The lookup found its key.
    pub open spec fn is_occupied(self) -> bool {
        self is Occupied
    }

    /// The token records a lookup outcome against this map state.
    pub open spec fn fits<V>(self, m: OrderedMap<K, V>) -> bool {
        match self {
            Entry::Occupied(e) => e.fits(m),
            Entry::Vacant(e) => e.fits(m),
        }
    }

    /// The key looked up, available in both states without a further
    /// search.
    pub fn key(&self) -> (k: &K)
        ensures
            *k == self.spec_key(),
    {
        match self {
            Entry::Occupied(e) => e.key(),
            Entry::Vacant(e) => e.key(),
        }
    }

    /// Exclusive access to the key's value: the one already stored when the
    /// lookup hit, a fresh one holding `default` — inserted at the recorded
    /// index, without a second search — when it missed.
    pub fn or_insert<'m, V>(self, map: &'m mut OrderedMap<K, V>, default: V) -> (v: &'m mut V)
        requires
            old(map).wf(),
            self.fits(*old(map)),
        ensures
            ({
                let idx = old(map).index_of(self.spec_key().deep_view());
                &&& final(map).wf()
                &&& self.is_occupied() ==> {
                    &&& *v == old(map).val_seq()[idx]
                    &&& final(map).key_seq() == old(map).key_seq()
                    &&& final(map).val_seq() == old(map).val_seq().update(idx, *final(v))
                }
                &&& !self.is_occupied() ==> {
                    &&& *v == default
                    &&& final(map).key_seq() == old(map).key_seq().insert(idx, self.spec_key())
                    &&& final(map).val_seq() == old(map).val_seq().insert(idx, *final(v))
                }
            }),
    {
        match self {
            Entry::Occupied(e) => e.into_mut(map),
            Entry::Vacant(e) => e.insert(map, default),
        }
    }

    /// As [`Entry::or_insert`], except that a missing value is computed by
    /// `default` only when the lookup missed.
    pub fn or_insert_with<'m, V, F: FnOnce() -> V>(
        self,
        map: &'m mut OrderedMap<K, V>,
        default: F,
    ) -> (v: &'m mut V)
        requires
            old(map).wf(),
            self.fits(*old(map)),
            !self.is_occupied() ==> call_requires(default, ()),
        ensures
            ({
                let idx = old(map).index_of(self.spec_key().deep_view());
                &&& final(map).wf()
                &&& self.is_occupied() ==> {
                    &&& *v == old(map).val_seq()[idx]
                    &&& final(map).key_seq() == old(map).key_seq()
                    &&& final(map).val_seq() == old(map).val_seq().update(idx, *final(v))
                }
                &&& !self.is_occupied() ==> {
                    &&& call_ensures(default, (), *v)
                    &&& final(map).key_seq() == old(map).key_seq().insert(idx, self.spec_key())
                    &&& final(map).val_seq() == old(map).val_seq().insert(idx, *final(v))
                }
            }),
    {
        match self {
            Entry::Occupied(e) => e.into_mut(map),
            Entry::Vacant(e) => e.insert(map, default()),
        }
    }

    /// As [`Entry::or_insert`] with the value type's default value. Nothing
    /// is promised of what that default is: `std` gives the library nothing
    /// to cite for an arbitrary value type.
    pub fn or_default<'m, V: Default>(self, map: &'m mut OrderedMap<K, V>) -> (v: &'m mut V)
        requires
            old(map).wf(),
            self.fits(*old(map)),
        ensures
            ({
                let idx = old(map).index_of(self.spec_key().deep_view());
                &&& final(map).wf()
                &&& self.is_occupied() ==> {
                    &&& *v == old(map).val_seq()[idx]
                    &&& final(map).key_seq() == old(map).key_seq()
                    &&& final(map).val_seq() == old(map).val_seq().update(idx, *final(v))
                }
                &&& !self.is_occupied() ==> {
                    &&& final(map).key_seq() == old(map).key_seq().insert(idx, self.spec_key())
                    &&& final(map).val_seq() == old(map).val_seq().insert(idx, *final(v))
                }
            }),
    {
        match self {
            Entry::Occupied(e) => e.into_mut(map),
            Entry::Vacant(e) => e.insert(map, V::default()),
        }
    }

    /// Apply `modify` to the stored value when the lookup hit; do nothing
    /// when it missed. The token comes back unchanged in kind, fitting the
    /// map as it now stands, so an `or_insert` can follow.
    pub fn and_modify<V, F: FnOnce(V) -> V>(
        self,
        map: &mut OrderedMap<K, V>,
        modify: F,
    ) -> (r: Entry<K>)
        requires
            old(map).wf(),
            self.fits(*old(map)),
            self.is_occupied() ==> call_requires(
                modify,
                (old(map).val_seq()[old(map).index_of(self.spec_key().deep_view())],),
            ),
        ensures
            r == self,
            final(map).wf(),
            r.fits(*final(map)),
            ({
                let idx = old(map).index_of(self.spec_key().deep_view());
                &&& self.is_occupied() ==> {
                    &&& final(map).key_seq() == old(map).key_seq()
                    &&& call_ensures(
                        modify,
                        (old(map).val_seq()[idx],),
                        final(map).val_seq()[idx],
                    )
                    &&& final(map).val_seq() == old(map).val_seq().update(
                        idx,
                        final(map).val_seq()[idx],
                    )
                }
                &&& !self.is_occupied() ==> *final(map) == *old(map)
            }),
    {
        match &self {
            Entry::Occupied(e) => {
                proof {
                    map_found(&*map, e.spec_key().deep_view());
                }
                let prior = map.values.remove(e.index);
                let modified = modify(prior);
                map.values.insert(e.index, modified);
                proof {
                    assert(map.values@ =~= old(map).val_seq().update(
                        e.spec_index(),
                        map.values@[e.spec_index()],
                    ));
                }
            },
            Entry::Vacant(_) => {
            },
        }
        self
    }
}

impl<K: TotalOrder, V> OrderedMap<K, V> {
    /// One binary search against the keys, recording its outcome so that a
    /// following insert or update needs no second search.
    pub fn entry(&self, key: K) -> (e: Entry<K>)
        requires
            self.wf(),
        ensures
            e.fits(*self),
            e.spec_key() == key,
            e.is_occupied() == self.has_key(key.deep_view()),
    {
        let ghost ks = views_of(self.key_seq());
        let ghost x = key.deep_view();
        let idx = from_index(self.keys.as_slice(), &key);
        proof {
            lemma_first_at_or_after::<K>(ks, x);
            lemma_order_laws::<K>();
        }
        if idx < self.keys.len() && !key.lt(&self.keys[idx]) {
            proof {
                assert(ks[idx as int] == x);
            }
            Entry::Occupied(OccupiedEntry { key, index: idx })
        } else {
            proof {
                assert forall|i: int| 0 <= i < ks.len() implies ks[i] != x by {
                    if i < idx {
                        assert(K::below(ks[i], x));
                    } else if i == idx {
                        assert(K::below(x, ks[i]));
                    } else {
                        assert(K::below(x, ks[idx as int]));
                        assert(K::below(ks[idx as int], ks[i]));
                    }
                }
            }
            Entry::Vacant(VacantEntry { key, index: idx })
        }
    }
}

/// A key the map holds sits at `index_of`, within bounds, carrying that
/// key's view.
proof fn map_found<K: TotalOrder, V>(m: &OrderedMap<K, V>, x: K::V)
    requires
        m.wf(),
        m.has_key(x),
    ensures
        0 <= m.index_of(x) < m.key_seq().len(),
        views_of(m.key_seq())[m.index_of(x)] == x,
{
    crate::position::lemma_found_at(m.key_seq(), x);
}

} // verus!
