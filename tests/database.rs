use seqlog::{HashMapIndex, Index, InsertPair, LogView, SynchronousDatabase, VecTable};

fn pair(key: &str, value: &str) -> (String, String) {
    (key.to_string(), value.to_string())
}

fn four_pairs() -> Vec<(String, String)> {
    vec![
        pair("key1", "value1"),
        pair("key2", "value2"),
        pair("key3", "value3"),
        pair("key4", "value4"),
    ]
}

#[test]
fn synchronous_no_dests() {
    let base = VecTable::<(String, String)>::new();
    let mut db: SynchronousDatabase<_, HashMapIndex<InsertPair>> =
        SynchronousDatabase::new(base, vec![]);
    db.write(four_pairs());
    assert_eq!(db.base().get_current_seq(), 4);
}

#[test]
fn one_dest() {
    let base = VecTable::<(String, String)>::new();
    let hash_map_log = HashMapIndex::new(InsertPair);
    let mut db = SynchronousDatabase::new(base, vec![hash_map_log]);
    db.write(four_pairs());
    assert_eq!(db.base().get_current_seq(), 4);
    assert_eq!(db.dests()[0].get_current_seq(), 4);
    let all = db.dests()[0].get_all(db.base(), 4);
    assert_eq!(all.len(), 4);
    assert_eq!(all.get(&"key3".to_string()), Some(&"value3".to_string()));
}

#[test]
fn writes_keep_indexes_current() {
    let base = VecTable::<(String, String)>::new();
    let mut db = SynchronousDatabase::new(base, vec![HashMapIndex::new(InsertPair)]);
    db.write(vec![pair("a", "1")]);
    db.write(vec![pair("a", "2"), pair("b", "3")]);
    assert_eq!(db.dests()[0].get_current_seq(), 3);
    let index = &db.dests()[0];
    assert_eq!(index.get(db.base(), 1, &"a".to_string()), Some("1".to_string()));
    assert_eq!(index.get(db.base(), 3, &"a".to_string()), Some("2".to_string()));
    assert_eq!(index.get(db.base(), 2, &"b".to_string()), None);
}
