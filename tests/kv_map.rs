use seqlog::KeyValueMap;

fn s(x: &str) -> String {
    x.to_string()
}

#[test]
fn key_value_map_operations() {
    let mut map = KeyValueMap::new();
    assert!(map.is_empty());
    map.insert(s("a"), s("1"));
    map.insert(s("b"), s("2"));
    map.insert(s("a"), s("3"));
    assert_eq!(map.len(), 2);
    assert_eq!(map.get(&s("a")), Some(&s("3")));
    assert!(map.contains_key(&s("b")));
    map.remove(&s("a"));
    assert_eq!(map.get(&s("a")), None);
    assert_eq!(map.len(), 1);
    map.remove(&s("missing"));
    assert_eq!(map.len(), 1);
    let copy = map.duplicate();
    map.clear();
    assert!(map.is_empty());
    assert_eq!(copy.entries(), vec![(s("b"), s("2"))]);
}
