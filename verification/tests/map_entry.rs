use ordered_collections::OrderedMap;

fn key(s: &str) -> String {
    s.to_string()
}

#[test]
fn map_entry_or_insert() {
    let mut map: OrderedMap<String, u32> = OrderedMap::new();
    let e = map.entry(key("whatever"));
    e.or_insert(&mut map, 3);
    assert_eq!(map.get(&key("whatever")), Some(&3_u32));
    let e = map.entry(key("whatever"));
    *e.or_insert(&mut map, 10) *= 2;
    assert_eq!(map.get(&key("whatever")), Some(&6_u32));
}

#[test]
fn map_entry_or_insert_with() {
    let mut map: OrderedMap<String, u32> = OrderedMap::new();
    let e = map.entry(key("whatever"));
    e.or_insert_with(&mut map, || 3);
    assert_eq!(map.get(&key("whatever")), Some(&3_u32));
    let e = map.entry(key("whatever"));
    *e.or_insert_with(&mut map, || 10) *= 2;
    assert_eq!(map.get(&key("whatever")), Some(&6_u32));
}

#[test]
fn map_entry_key() {
    let map: OrderedMap<String, u32> = OrderedMap::new();
    assert_eq!(map.entry(key("whatever")).key(), &key("whatever"));
}

#[test]
fn map_entry_and_modify() {
    let mut map: OrderedMap<String, u32> = OrderedMap::new();
    let e = map.entry(key("whatever"));
    let e = e.and_modify(&mut map, |v| v + 1);
    e.or_insert(&mut map, 3);
    assert_eq!(map.get(&key("whatever")), Some(&3_u32));
    let e = map.entry(key("whatever"));
    let e = e.and_modify(&mut map, |v| v + 1);
    e.or_insert(&mut map, 3);
    assert_eq!(map.get(&key("whatever")), Some(&4_u32));
}

#[test]
fn map_entry_or_default() {
    let mut map: OrderedMap<String, u32> = OrderedMap::new();
    let e = map.entry(key("whatever"));
    e.or_default(&mut map);
    assert_eq!(map.get(&key("whatever")), Some(&0_u32));
    let e = map.entry(key("whatever"));
    *e.or_default(&mut map) += 2;
    assert_eq!(map.get(&key("whatever")), Some(&2_u32));
    let e = map.entry(key("whatever"));
    *e.or_default(&mut map) += 2;
    assert_eq!(map.get(&key("whatever")), Some(&4_u32));
}
