use std::collections::hash_map::DefaultHasher;
use std::hash::{Hash, Hasher};

use ordered_collections::ordered_iterators::ToSet;
use ordered_collections::{OrderedMap, OrderedSet};

static TEST_STRS: &[&str] = &[
    "hhh", "aaa", "ggg", "sss", "zzz", "bbb", "fff", "iii", "qqq", "jjj", "ddd", "eee", "ccc",
    "mmm", "lll", "nnn", "ppp", "rrr",
];

fn str_set(strs: &[&str]) -> OrderedSet<String> {
    OrderedSet::from_items(strs.iter().map(|s| s.to_string()).collect())
}

fn random_sequence(length: usize) -> Vec<u64> {
    let mut v = vec![];
    for _ in 0..length {
        let t: u64 = rand::random();
        v.push(t)
    }
    v
}

fn calculate_hash<T: Hash>(t: &T) -> u64 {
    let mut s = DefaultHasher::new();
    t.hash(&mut s);
    s.finish()
}

#[test]
fn default_works() {
    assert!(OrderedSet::<String>::default().len() == 0);
    assert!(OrderedSet::<u32>::default().len() == 0);
}

#[test]
fn check_constraints() {
    // The set itself only needs the ordering capability; materialising a
    // merge additionally needs duplication.
    let list_1 = OrderedSet::<u32>::default();
    let list_2 = OrderedSet::<u32>::default();
    let list_3 = list_1.union(&list_2).to_set();
    assert!(list_3.len() == 0);
}

#[test]
fn insert_works() {
    let mut str_set = OrderedSet::<String>::default();
    assert!(str_set.is_valid());
    assert!(str_set.first().is_none());
    for text in TEST_STRS.iter() {
        assert!(str_set.insert(text.to_string()));
        assert!(str_set.is_valid());
        assert!(str_set.contains(&text.to_string()));
        assert!(!str_set.insert(text.to_string()));
        assert!(str_set.is_valid());
        assert!(str_set.contains(&text.to_string()));
    }
    for text in TEST_STRS.iter() {
        assert!(!str_set.insert(text.to_string()));
        assert!(str_set.is_valid());
        assert!(str_set.contains(&text.to_string()));
    }
    assert_eq!(str_set.first(), Some(&"aaa".to_string()));
}

#[test]
fn from_iter_works() {
    let str_set = str_set(TEST_STRS);
    assert!(str_set.is_valid());
    for text in TEST_STRS.iter() {
        assert!(str_set.contains(&text.to_string()))
    }
    let mut it = str_set.iter();
    while let Some(string) = it.next() {
        assert!(TEST_STRS.contains(&string.as_str()));
    }

    let u64_seq = random_sequence(1000);
    assert_eq!(u64_seq.len(), 1000);
    let u64_set: OrderedSet<u64> = OrderedSet::from_items(u64_seq.clone());
    assert!(u64_set.is_valid());
    for u in u64_seq.iter() {
        assert!(u64_set.contains(u));
    }
    let mut it = u64_set.iter();
    while let Some(u) = it.next() {
        assert!(u64_seq.contains(u));
    }
    assert_eq!(u64_seq.len(), u64_set.len());
}

#[test]
fn ordered_set_iter_after_works() {
    let str_set = str_set(TEST_STRS);
    let mut it = str_set.iter_after(&"jjj".to_string());
    while let Some(item) = it.next() {
        assert!(item > &"jjj".to_string());
        assert!(TEST_STRS.contains(&item.as_str()));
    }
    let mut it = str_set.iter_after(&"zzz".to_string());
    while let Some(item) = it.next() {
        assert!(item > &"zzz".to_string());
        assert!(false);
    }
}

#[test]
fn remove_works() {
    let mut str_set = str_set(TEST_STRS);
    for text in TEST_STRS.iter() {
        assert!(str_set.remove(&text.to_string()));
        assert!(!str_set.remove(&text.to_string()));
    }
    assert!(str_set.is_empty());
}

#[test]
fn equality_and_hash_work() {
    let str_set1 = str_set(TEST_STRS);
    let mut str_set2 = str_set(TEST_STRS);
    assert_eq!(str_set1, str_set2);
    assert_eq!(calculate_hash(&str_set1), calculate_hash(&str_set2));
    assert!(str_set2.remove(&TEST_STRS.first().unwrap().to_string()));
    assert!(str_set1 != str_set2);
    assert!(calculate_hash(&str_set1) != calculate_hash(&str_set2));
}

#[test]
fn test_is_disjoint() {
    let str_set1 = str_set(&TEST_STRS[0..5]);
    let str_set2 = str_set(&TEST_STRS[5..]);
    assert!(str_set1.is_disjoint(&str_set2));
    let str_set1 = str_set(&TEST_STRS[0..8]);
    let str_set2 = str_set(&TEST_STRS[4..]);
    assert!(!str_set1.is_disjoint(&str_set2));

    let u64_seq = random_sequence(1000);
    let set1: OrderedSet<u64> = OrderedSet::from_items(u64_seq[0..500].to_vec());
    let set2: OrderedSet<u64> = OrderedSet::from_items(u64_seq[500..].to_vec());
    assert!(set1.is_disjoint(&set2));
    let set1: OrderedSet<u64> = OrderedSet::from_items(u64_seq[0..700].to_vec());
    let set2: OrderedSet<u64> = OrderedSet::from_items(u64_seq[300..].to_vec());
    assert!(!set1.is_disjoint(&set2));
}

#[test]
fn test_is_subset() {
    let max = TEST_STRS.len();
    for test in &[
        ((0, 7), (7, max), false, false),
        ((7, max), (5, max), true, true),
        ((5, max), (7, max), false, false),
        ((1, 7), (1, 7), true, false),
        ((0, 9), (5, max), false, false),
        ((1, max), (1, 7), false, false),
    ] {
        println!("TEST: {:?}", test); // to help identify failed tests
        let set1 = str_set(&TEST_STRS[(test.0).0..(test.0).1]);
        let set2 = str_set(&TEST_STRS[(test.1).0..(test.1).1]);
        assert!(set1.is_subset(&set2) == test.2);
        if set1.is_subset(&set2) {
            let mut it = set1.iter();
            while let Some(item) = it.next() {
                assert!(set2.contains(item));
            }
        }
        assert!(set1.is_proper_subset(&set2) == test.3);
    }
}

#[test]
fn test_is_superset() {
    let max = TEST_STRS.len();
    for test in &[
        ((0, 7), (7, max), false, false),
        ((7, max), (5, max), false, false),
        ((5, max), (7, max), true, true),
        ((1, 7), (1, 7), true, false),
        ((0, 9), (5, max), false, false),
        ((1, max), (1, 7), true, true),
    ] {
        println!("TEST: {:?}", test); // to help identify failed tests
        let set1 = str_set(&TEST_STRS[(test.0).0..(test.0).1]);
        let set2 = str_set(&TEST_STRS[(test.1).0..(test.1).1]);
        assert!(set1.is_superset(&set2) == test.2);
        if set1.is_superset(&set2) {
            let mut it = set2.iter();
            while let Some(item) = it.next() {
                assert!(set1.contains(item));
            }
        }
        assert!(set1.is_proper_superset(&set2) == test.3);
    }
}

#[test]
fn test_difference() {
    let str_set1 = str_set(&TEST_STRS[0..8]);
    let str_set2 = str_set(&TEST_STRS[4..]);
    let expected = str_set(&TEST_STRS[0..4]);
    let result = str_set1.difference(&str_set2).to_set();
    assert!(result.is_valid());
    assert_eq!(expected, result);
}

#[test]
fn test_symmetric_difference() {
    let str_set1 = str_set(&TEST_STRS[0..8]);
    let str_set2 = str_set(&TEST_STRS[4..]);
    let mut expected = str_set(&TEST_STRS[0..4]);
    for item in TEST_STRS[8..].iter().map(|s| s.to_string()) {
        expected.insert(item);
    }
    let result = str_set1.symmetric_difference(&str_set2).to_set();
    assert!(result.is_valid());
    assert_eq!(expected, result);
}

#[test]
fn test_union() {
    let str_set1 = str_set(&TEST_STRS[0..8]);
    let str_set2 = str_set(&TEST_STRS[4..]);
    let expected = str_set(&TEST_STRS[0..]);
    let result = str_set1.union(&str_set2).to_set();
    assert!(result.is_valid());
    assert_eq!(expected, result);
}

#[test]
fn test_intersection() {
    let str_set1 = str_set(&TEST_STRS[0..8]);
    let str_set2 = str_set(&TEST_STRS[4..]);
    let expected = str_set(&TEST_STRS[4..8]);
    let result = str_set1.intersection(&str_set2).to_set();
    assert!(result.is_valid());
    assert_eq!(expected, result);
}

#[test]
fn map_algebra_and_drain_work() {
    let set = str_set(&TEST_STRS[0..8]);
    let mut map: OrderedMap<String, u32> = OrderedMap::new();
    for (i, s) in TEST_STRS[4..].iter().enumerate() {
        map.insert(s.to_string(), i as u32);
    }
    let inter = set.map_intersection(&map).to_set();
    assert_eq!(inter, str_set(&TEST_STRS[4..8]));
    let uni = set.map_union(&map).to_set();
    assert_eq!(uni, str_set(&TEST_STRS[0..]));
    let diff = set.map_difference(&map).to_set();
    assert_eq!(diff, str_set(&TEST_STRS[0..4]));
    let sym = set.map_symmetric_difference(&map).to_set();
    let mut expected = str_set(&TEST_STRS[0..4]);
    for item in TEST_STRS[8..].iter().map(|s| s.to_string()) {
        expected.insert(item);
    }
    assert_eq!(sym, expected);
    assert!(!set.is_map_disjoint(&map));
    let far = str_set(&["uuu", "vvv"]);
    assert!(far.is_map_disjoint(&map));

    let mut drained = str_set(&TEST_STRS[0..4]);
    let out = drained.drain();
    assert!(drained.is_empty());
    assert_eq!(out, vec!["aaa".to_string(), "ggg".to_string(), "hhh".to_string(), "sss".to_string()]);
}
