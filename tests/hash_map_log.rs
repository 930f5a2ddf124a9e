use std::collections::HashMap;

use seqlog::{HashMapIndex, InsertPair, KeyValueMap, Table, VecTable};

fn pair(key: &str, value: &str) -> (String, String) {
    (key.to_string(), value.to_string())
}

fn as_map(map: KeyValueMap) -> HashMap<String, String> {
    map.entries().into_iter().collect()
}

fn expect(pairs: &[(&str, &str)]) -> HashMap<String, String> {
    pairs.iter().map(|(k, v)| (k.to_string(), v.to_string())).collect()
}

#[test]
fn hash_map_log_get_at_seq_none() {
    let table = VecTable::<(String, String)>::new();
    let hash_map_log = HashMapIndex::new(InsertPair);
    let hash_map = as_map(hash_map_log.get_all(&table, 4));
    assert_eq!(hash_map, expect(&[]));
}

#[test]
fn hash_map_log_get_at_seq_one() {
    let mut table = VecTable::<(String, String)>::new();
    assert_eq!(table.append(vec![pair("key1", "value1")]), vec![1]);
    let hash_map_log = HashMapIndex::new(InsertPair);
    let hash_map = as_map(hash_map_log.get_all(&table, 4));
    assert_eq!(hash_map, expect(&[("key1", "value1")]));
}

#[test]
fn hash_map_log_get_at_seq_all() {
    let mut table = VecTable::<(String, String)>::new();
    assert_eq!(table.append(vec![pair("key1", "value1")]), vec![1]);
    assert_eq!(table.append(vec![pair("key2", "value2")]), vec![2]);
    assert_eq!(table.append(vec![pair("key3", "value3")]), vec![3]);
    assert_eq!(table.append(vec![pair("key4", "value4")]), vec![4]);
    let hash_map_log = HashMapIndex::new(InsertPair);
    let hash_map = as_map(hash_map_log.get_all(&table, 4));
    assert_eq!(
        hash_map,
        expect(&[("key1", "value1"), ("key2", "value2"), ("key3", "value3"), ("key4", "value4")])
    );
}

#[test]
fn hash_map_log_get_at_seq_partial() {
    let mut table = VecTable::<(String, String)>::new();
    assert_eq!(table.append(vec![pair("key1", "value1")]), vec![1]);
    assert_eq!(table.append(vec![pair("key2", "value2")]), vec![2]);
    assert_eq!(table.append(vec![pair("key3", "value3")]), vec![3]);
    assert_eq!(table.append(vec![pair("key4", "value4")]), vec![4]);
    let hash_map_log = HashMapIndex::new(InsertPair);
    let hash_map = as_map(hash_map_log.get_all(&table, 3));
    assert_eq!(hash_map, expect(&[("key1", "value1"), ("key2", "value2"), ("key3", "value3")]));
}

#[test]
fn hash_map_log_get_at_seq_partial_overwrite() {
    let mut table = VecTable::<(String, String)>::new();
    assert_eq!(table.append(vec![pair("key1", "value1")]), vec![1]);
    assert_eq!(table.append(vec![pair("key2", "value2")]), vec![2]);
    assert_eq!(table.append(vec![pair("key3", "value3")]), vec![3]);
    assert_eq!(table.append(vec![pair("key2", "VALUE2")]), vec![4]);
    let hash_map_log = HashMapIndex::new(InsertPair);
    let hash_map = as_map(hash_map_log.get_all(&table, 3));
    assert_eq!(hash_map, expect(&[("key1", "value1"), ("key2", "value2"), ("key3", "value3")]));
}
