use ordered_collections::ordered_iterators::{MapIter, MapIterMut, SetIter, ValueIter, ValueIterMut};
use ordered_collections::ordered_iterators::{SkipAheadIterator, ToList, ToSet, ToTupleList};
use ordered_collections::ordered_iterators::output_is_ordered_nodups;
use ordered_collections::position::{after_index, from_index};

fn key(s: &str) -> String {
    s.to_string()
}

fn list() -> Vec<String> {
    vec!["a", "c", "e", "g", "i", "k", "m"].into_iter().map(|s| s.to_string()).collect()
}

fn values() -> Vec<i32> {
    vec![6, 5, 4, 3, 2, 1, 0]
}

fn map_pairs() -> Vec<(String, i32)> {
    vec![
        ("a", 6),
        ("c", 5),
        ("e", 4),
        ("g", 3),
        ("i", 2),
        ("k", 1),
        ("m", 0),
    ]
        .into_iter()
        .map(|(s, v)| (s.to_string(), v))
        .collect()
}

fn list_unordered() -> Vec<String> {
    vec!["a", "c", "e", "z", "g", "i", "k", "m"].into_iter().map(|s| s.to_string()).collect()
}

#[test]
fn output_is_ordered_nodups_works() {
    let l = list();
    assert!(output_is_ordered_nodups(&mut SetIter::new(&l)));
    let rev: Vec<String> = list().into_iter().rev().collect();
    assert!(!output_is_ordered_nodups(&mut SetIter::new(&rev)));
    let lu = list_unordered();
    assert!(!output_is_ordered_nodups(&mut SetIter::new(&lu)));
    let rev: Vec<String> = list_unordered().into_iter().rev().collect();
    assert!(!output_is_ordered_nodups(&mut SetIter::new(&rev)));
}

#[test]
fn map_next_after_works() {
    let l = list();
    let v = values();
    assert_eq!(MapIter::new(&l, &v).next_after(&key("g")), Some((&key("i"), &2)));
    assert_eq!(MapIter::new(&l, &v).next_after(&key("a")), Some((&key("c"), &5)));
    let mut iter = MapIter::new(&l, &v);
    assert_eq!(iter.next_after(&key("k")), Some((&key("m"), &0)));
    assert_eq!(iter.next_after(&key("k")), None);
}

#[test]
fn map_next_from_works() {
    let l = list();
    let v = values();
    assert_eq!(MapIter::new(&l, &v).next_from(&key("g")), Some((&key("g"), &3)));
    assert_eq!(MapIter::new(&l, &v).next_from(&key("a")), Some((&key("a"), &6)));
    let mut iter = MapIter::new(&l, &v);
    assert_eq!(iter.next_from(&key("m")), Some((&key("m"), &0)));
    assert_eq!(iter.next_from(&key("m")), None);
}

#[test]
fn set_iter_works() {
    let l = list();
    assert_eq!(SetIter::new(&l).to_list(), list());
    let mut set_iter = SetIter::new(&l);
    assert_eq!(set_iter.next_after(&key("g")), Some(&key("i")));
    assert_eq!(set_iter.to_list(), list()[5..].to_vec());
    let mut set_iter = SetIter::new(&l);
    assert_eq!(set_iter.next_from(&key("g")), Some(&key("g")));
    assert_eq!(set_iter.to_list(), list()[4..].to_vec());
}

#[test]
fn skip_past_works() {
    let l = list();
    let mut it = SetIter::new(&l);
    it.skip_past(&key("g"));
    assert_eq!(it.next(), Some(&key("i")));
    let mut it = SetIter::new(&l);
    it.skip_past(&key("f"));
    assert_eq!(it.next(), Some(&key("g")));
    let mut it = SetIter::new(&l);
    it.skip_past(&key("g"));
    assert_eq!(it.to_set().len(), 3);
}

#[test]
fn skip_until_works() {
    let l = list();
    let mut it = SetIter::new(&l);
    it.skip_until(&key("g"));
    assert_eq!(it.next(), Some(&key("g")));
    let mut it = SetIter::new(&l);
    it.skip_until(&key("f"));
    assert_eq!(it.next(), Some(&key("g")));
    let mut it = SetIter::new(&l);
    it.skip_until(&key("f"));
    assert_eq!(it.to_set().len(), 4);
}

#[test]
fn map_iter_works() {
    let l = list();
    let v = values();
    let mut map_iter = MapIter::new(&l, &v);
    let result: Vec<(String, i32)> = map_iter.to_list();
    assert_eq!(result, map_pairs());
    let mut map_iter = MapIter::new(&l, &v);
    assert_eq!(map_iter.next_after(&key("g")), Some((&key("i"), &2)));
    let result: Vec<(String, i32)> = map_iter.to_list();
    assert_eq!(result, map_pairs()[5..].to_vec());
    let mut map_iter = MapIter::new(&l, &v);
    assert_eq!(map_iter.next_from(&key("g")), Some((&key("g"), &3)));
    let result: Vec<(String, i32)> = map_iter.to_list();
    assert_eq!(result, map_pairs()[4..].to_vec());
}

#[test]
fn value_iter_works() {
    let l = list();
    let v = values();
    assert_eq!(ValueIter::new(&l, &v).to_list(), values());
    let mut value_iter = ValueIter::new(&l, &v);
    assert_eq!(value_iter.next_after(&key("g")), Some(&2_i32));
    assert_eq!(value_iter.to_list(), values()[5..].to_vec());
    let mut value_iter = ValueIter::new(&l, &v);
    assert_eq!(value_iter.next_from(&key("g")), Some(&3_i32));
    assert_eq!(value_iter.to_list(), values()[4..].to_vec());
}

#[test]
fn ordered_iterators_iter_after_works() {
    let l = list();
    let mut iter_after = SetIter::new(&l[after_index(&l, &key("g"))..]);
    assert_eq!(iter_after.to_list(), list()[4..].to_vec());
    let mut iter_after = SetIter::new(&l[after_index(&l, &key("f"))..]);
    assert_eq!(iter_after.to_list(), list()[3..].to_vec());
}

#[test]
fn iter_before_works() {
    let l = list();
    let mut iter_before = SetIter::new(&l[..from_index(&l, &key("g"))]);
    assert_eq!(iter_before.to_list(), list()[..3].to_vec());
    let mut iter_before = SetIter::new(&l[..from_index(&l, &key("f"))]);
    assert_eq!(iter_before.to_list(), list()[..3].to_vec());
}

#[test]
fn iter_from_works() {
    let l = list();
    let mut iter_from = SetIter::new(&l[from_index(&l, &key("g"))..]);
    assert_eq!(iter_from.to_list(), list()[3..].to_vec());
    let mut iter_from = SetIter::new(&l[from_index(&l, &key("f"))..]);
    assert_eq!(iter_from.to_list(), list()[3..].to_vec());
}

#[test]
fn iter_until_works() {
    let l = list();
    let mut iter_until = SetIter::new(&l[..after_index(&l, &key("g"))]);
    assert_eq!(iter_until.to_list(), list()[..4].to_vec());
    let mut iter_until = SetIter::new(&l[..after_index(&l, &key("f"))]);
    assert_eq!(iter_until.to_list(), list()[..3].to_vec());
}

#[test]
fn map_iter_mut_works() {
    let l = list();
    let mut vals: Vec<i32> = values();
    let mut it = MapIter::new(&l, &vals);
    let mut i = 0;
    while let Some(pair) = it.next() {
        assert_eq!(6 - i as i32, *pair.1);
        i += 1;
    }
    let mut it = MapIterMut::new(&l, &mut vals);
    let mut i = 0;
    while let Some((_, value)) = it.next() {
        *value = i as i32 + 5;
        i += 1;
    }
    let mut it = MapIter::new(&l, &vals);
    let mut i = 0;
    while let Some(pair) = it.next() {
        assert_eq!(i as i32 + 5, *pair.1);
        i += 1;
    }
}

fn drain_mut(it: &mut ValueIterMut<String, i32>) -> Vec<i32> {
    let mut out = vec![];
    while let Some(v) = it.next() {
        out.push(*v);
    }
    out
}

#[test]
fn value_iter_mut_works() {
    let l = list();
    let vec: Vec<i32> = values();
    let mut vals: Vec<i32> = values();
    let mut it = ValueIterMut::new(&l, &mut vals);
    let result: Vec<i32> = drain_mut(&mut it);
    assert_eq!(result, vec);
    let mut it = ValueIterMut::new(&l, &mut vals);
    assert_eq!(it.next_after(&key("g")).map(|v| *v), Some(2_i32));
    let mut it = ValueIterMut::new(&l, &mut vals);
    it.skip_past(&key("i"));
    let result: Vec<i32> = drain_mut(&mut it);
    assert_eq!(result, vec[5..].to_vec());
    let mut it = ValueIterMut::new(&l, &mut vals);
    assert_eq!(it.next_from(&key("g")).map(|v| *v), Some(3_i32));
    let mut it = ValueIterMut::new(&l, &mut vals);
    it.skip_past(&key("g"));
    let result: Vec<i32> = drain_mut(&mut it);
    assert_eq!(result, vec[4..].to_vec());
    let mut it = ValueIter::new(&l, &vals);
    let mut i = 0;
    while let Some(value) = it.next() {
        assert!(*value != i as i32 || i == 3);
        i += 1;
    }
    let mut it = ValueIterMut::new(&l, &mut vals);
    let mut i = 0;
    while let Some(value) = it.next() {
        *value = i as i32;
        i += 1;
    }
    let mut it = ValueIter::new(&l, &vals);
    let mut i = 0;
    while let Some(value) = it.next() {
        assert_eq!(*value, i as i32);
        i += 1;
    }
}
