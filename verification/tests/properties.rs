use ordered_collections::ordered_iterators::{SkipAheadIterator, ToList, ToSet};
use ordered_collections::ordered_iterators::SetIter;
use ordered_collections::{OrderedMap, OrderedSet};

fn key(s: &str) -> String {
    s.to_string()
}

fn set_of(strs: &[&str]) -> OrderedSet<String> {
    OrderedSet::from_items(strs.iter().map(|s| s.to_string()).collect())
}

// The stored sequence stays strictly ascending and duplicate-free through
// arbitrary mixtures of insertions and removals.
#[test]
fn invariant_survives_churn() {
    let mut set = OrderedSet::<u32>::new();
    let items: Vec<u32> = vec![9, 3, 7, 3, 1, 9, 8, 2, 2, 5];
    for x in items.iter() {
        set.insert(*x);
        assert!(set.is_valid());
    }
    for x in vec![3, 4, 9, 9] {
        set.remove(&x);
        assert!(set.is_valid());
    }
    let mut map = OrderedMap::<u32, u32>::new();
    for x in items.iter() {
        map.insert(*x, x + 1);
        assert!(map.is_valid());
    }
    map.remove(&7);
    map.remove(&100);
    assert!(map.is_valid());
}

// Inserting the same element twice changes membership only once.
#[test]
fn insert_idempotence() {
    let mut set = OrderedSet::<String>::new();
    assert!(set.insert(key("g")));
    assert!(!set.insert(key("g")));
    assert_eq!(set.len(), 1);

    let mut map = OrderedMap::<String, u32>::new();
    assert_eq!(map.insert(key("g"), 1), None);
    assert_eq!(map.insert(key("g"), 2), Some(1));
    assert_eq!(map.get(&key("g")), Some(&2));
    assert_eq!(map.len(), 1);
}

// What is inserted and not removed is found; what is removed is absent, and
// removing it again reports the absence.
#[test]
fn membership_round_trip() {
    let mut set = OrderedSet::<u32>::new();
    set.insert(5);
    set.insert(9);
    assert!(set.contains(&5));
    assert!(set.contains(&9));
    assert!(set.remove(&5));
    assert!(!set.contains(&5));
    assert!(!set.remove(&5));
    assert!(set.contains(&9));

    let mut map = OrderedMap::<u32, String>::new();
    map.insert(5, key("five"));
    assert_eq!(map.get(&5), Some(&key("five")));
    assert_eq!(map.remove(&5), Some(key("five")));
    assert_eq!(map.get(&5), None);
    assert_eq!(map.remove(&5), None);
}

// |A union B| = |A| + |B| - |A intersection B|; intersection and difference
// partition A; the symmetric difference is the two differences joined and
// the three parts are pairwise disjoint; every result is itself ordered.
#[test]
fn merge_algebra() {
    let a = set_of(&["a", "c", "e", "g", "i"]);
    let b = set_of(&["c", "d", "g", "h"]);
    let union = a.union(&b).to_set();
    let inter = a.intersection(&b).to_set();
    let diff_ab = a.difference(&b).to_set();
    let diff_ba = b.difference(&a).to_set();
    let sym = a.symmetric_difference(&b).to_set();
    assert_eq!(union.len() + inter.len(), a.len() + b.len());
    assert_eq!(union.len(), a.len() + b.len() - inter.len());
    assert_eq!(inter.len() + diff_ab.len(), a.len());
    assert!(inter.is_disjoint(&diff_ab));
    assert_eq!(sym, diff_ab.union(&diff_ba).to_set());
    assert!(diff_ab.is_disjoint(&diff_ba));
    assert!(sym.is_disjoint(&inter));
    assert!(union.is_valid());
    assert!(inter.is_valid());
    assert!(diff_ab.is_valid());
    assert!(sym.is_valid());
    assert_eq!(union, set_of(&["a", "c", "d", "e", "g", "h", "i"]));
    assert_eq!(inter, set_of(&["c", "g"]));
    assert_eq!(diff_ab, set_of(&["a", "e", "i"]));
    assert_eq!(sym, set_of(&["a", "d", "e", "h", "i"]));
}

// skip_past followed by next yields what a linear scan for the first
// element past the target yields; skip_until likewise with at-or-past.
#[test]
fn skip_matches_linear_scan() {
    let items: Vec<u32> = vec![2, 4, 6, 8, 10];
    for t in 0..12u32 {
        let mut it = SetIter::new(&items);
        it.skip_past(&t);
        let skipped = it.next().copied();
        let scanned = items.iter().find(|x| **x > t).copied();
        assert_eq!(skipped, scanned);

        let mut it = SetIter::new(&items);
        it.skip_until(&t);
        let skipped = it.next().copied();
        let scanned = items.iter().find(|x| **x >= t).copied();
        assert_eq!(skipped, scanned);
    }
}

// A merge iterator can be skipped as a whole before being consumed.
#[test]
fn merge_skip_ahead() {
    let a = set_of(&["a", "c", "e", "g", "i"]);
    let b = set_of(&["b", "c", "h"]);
    let mut merged = a.union(&b);
    merged.skip_past(&key("c"));
    assert_eq!(merged.to_list(), vec![key("e"), key("g"), key("h"), key("i")]);
    let mut merged = a.intersection(&b);
    merged.skip_until(&key("c"));
    assert_eq!(merged.to_list(), vec![key("c")]);
}

// Disjointness agrees with emptiness of the intersection.
#[test]
fn disjoint_iff_intersection_empty() {
    let pairs: Vec<(OrderedSet<u32>, OrderedSet<u32>)> = vec![
        (OrderedSet::from_items(vec![1, 3, 5]), OrderedSet::from_items(vec![2, 4])),
        (OrderedSet::from_items(vec![1, 3, 5]), OrderedSet::from_items(vec![5, 7])),
        (OrderedSet::new(), OrderedSet::from_items(vec![2])),
    ];
    for (a, b) in pairs {
        assert_eq!(a.is_disjoint(&b), a.intersection(&b).to_set().is_empty());
    }
}

// The concrete set-algebra scenario over single-letter string sets.
#[test]
fn letter_set_scenario() {
    let a = set_of(&["g", "i", "k", "m"]);
    let b = set_of(&["a", "c", "e", "g"]);
    assert_eq!(a.difference(&b).to_set(), set_of(&["i", "k", "m"]));
    assert_eq!(a.symmetric_difference(&b).to_set(), set_of(&["a", "c", "e", "i", "k", "m"]));
    assert_eq!(a.union(&b).to_set(), set_of(&["a", "c", "e", "g", "i", "k", "m"]));
    assert_eq!(a.intersection(&b).to_set(), set_of(&["g"]));
}

// The entry scenario: insert-if-absent leaves an occupied entry alone, and
// and_modify applies only to occupied entries.
#[test]
fn entry_scenario() {
    let mut map = OrderedMap::<String, u32>::new();
    let e = map.entry(key("x"));
    assert_eq!(*e.or_insert(&mut map, 3), 3);
    assert_eq!(map.len(), 1);
    let e = map.entry(key("x"));
    assert_eq!(*e.or_insert(&mut map, 10), 3);
    assert_eq!(map.len(), 1);
    let e = map.entry(key("x"));
    let e = e.and_modify(&mut map, |v| v + 1);
    assert_eq!(*e.or_insert(&mut map, 0), 4);
    assert_eq!(map.get(&key("x")), Some(&4));
}

// The capacity reported can never undercut the number of members held.
#[test]
fn capacity_covers_length() {
    let mut set = OrderedSet::<u32>::new();
    for x in 0..100u32 {
        set.insert(x);
        assert!(set.capacity() >= set.len());
    }
    let mut map = OrderedMap::<u32, u32>::new();
    for x in 0..100u32 {
        map.insert(x, x);
        assert!(map.capacity() >= map.len());
    }
}

// Lookup positions: first(), get and get_mut see exactly the stored data.
#[test]
fn map_lookup_and_update() {
    let mut map = OrderedMap::<u32, String>::new();
    map.insert(4, key("four"));
    map.insert(2, key("two"));
    map.insert(6, key("six"));
    assert!(map.contains_key(&4));
    assert!(!map.contains_key(&5));
    if let Some(v) = map.get_mut(&4) {
        *v = key("FOUR");
    }
    assert_eq!(map.get(&4), Some(&key("FOUR")));
    assert_eq!(map.get_mut(&5), None);
    map.clear();
    assert!(map.is_empty());
}

// Merging two maps keeps the left value on a shared key and interleaves the
// rest in key order.
#[test]
fn map_merge_is_left_biased() {
    let mut left = OrderedMap::<String, u32>::new();
    left.insert(key("a"), 1);
    left.insert(key("c"), 3);
    let mut right = OrderedMap::<String, u32>::new();
    right.insert(key("b"), 20);
    right.insert(key("c"), 30);
    right.insert(key("d"), 40);
    let mut merged = left.merge(&right);
    let mut got: Vec<(String, u32)> = Vec::new();
    while let Some((k, v)) = merged.next() {
        got.push((k.clone(), *v));
    }
    assert_eq!(
        got,
        vec![(key("a"), 1), (key("b"), 20), (key("c"), 3), (key("d"), 40)],
    );
    let mut merged = left.merge(&right);
    merged.skip_past(&key("b"));
    let mut got: Vec<(String, u32)> = Vec::new();
    while let Some((k, v)) = merged.next() {
        got.push((k.clone(), *v));
    }
    assert_eq!(got, vec![(key("c"), 3), (key("d"), 40)]);
}

// Iterating a map after a key, and over keys and values separately.
#[test]
fn map_iteration_views() {
    let mut map = OrderedMap::<String, u32>::new();
    for (k, v) in vec![("a", 1u32), ("c", 3), ("e", 5)] {
        map.insert(key(k), v);
    }
    let mut it = map.iter();
    assert_eq!(it.next(), Some((&key("a"), &1)));
    let mut it = map.iter_after(&key("a"));
    assert_eq!(it.next(), Some((&key("c"), &3)));
    let mut keys = map.keys();
    assert_eq!(keys.to_list(), vec![key("a"), key("c"), key("e")]);
    let mut vals = map.values();
    assert_eq!(vals.to_list(), vec![1, 3, 5]);
}

// A set built from a pre-sorted vector is taken as-is.
#[test]
fn from_sorted_is_kept() {
    let set = OrderedSet::<u32>::from_sorted(vec![1, 2, 3]);
    assert!(set.is_valid());
    assert_eq!(set.len(), 3);
    assert!(set.contains(&2));
}

// Building a map from a pair list follows insertion order: the last pair
// with a key supplies its value.
#[test]
fn map_from_items_last_value_wins() {
    let map = OrderedMap::<String, u32>::from_items(vec![
        (key("b"), 1),
        (key("a"), 2),
        (key("b"), 3),
        (key("c"), 4),
    ]);
    assert!(map.is_valid());
    assert_eq!(map.len(), 3);
    assert_eq!(map.get(&key("a")), Some(&2));
    assert_eq!(map.get(&key("b")), Some(&3));
    assert_eq!(map.get(&key("c")), Some(&4));
}
