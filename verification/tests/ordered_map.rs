use std::collections::HashMap;

use ordered_collections::OrderedMap;

fn test_items_with(tag: u32) -> Vec<(String, (String, u32))> {
    vec![
        "hhh", "aaa", "ggg", "sss", "zzz", "bbb", "fff", "iii", "qqq", "jjj", "ddd", "eee",
        "ccc", "mmm", "lll", "nnn", "ppp", "rrr",
    ]
        .into_iter()
        .map(|s| (s.to_string(), (s.to_uppercase(), tag)))
        .collect()
}

#[test]
fn map_default_works() {
    let map = OrderedMap::<u32, u32>::default();
    assert_eq!(map.len(), 0);
    assert!(map.is_empty());
}

#[test]
fn map_basic_functionality() {
    let mut map = OrderedMap::<String, (String, u32)>::default();
    for (key, value) in test_items_with(0) {
        println!("{:?} => {:?}", key, value);
        assert!(map.insert(key.clone(), value.clone()).is_none());
        assert!(map.is_valid());
        assert_eq!(map.get(&key), Some(&value));
        assert_eq!(map.insert(key.clone(), value.clone()), Some(value.clone()));
        assert!(map.is_valid());
    }
    let mut hash_map = HashMap::<String, (String, u32)>::new();
    for (key, value) in test_items_with(0) {
        assert!(hash_map.insert(key, value).is_none());
    }
    for (key, value) in test_items_with(1) {
        if let Some(old_value) = hash_map.get(&key) {
            assert_eq!(map.insert(key.clone(), value.clone()), Some(old_value.clone()));
            assert!(map.is_valid());
            assert_eq!(map.get(&key), Some(&value));
        } else {
            assert!(false);
        }
    }
}
