use std::collections::HashMap;

use seqlog::{
    CompositeView, HashMapIndex, HashMapUpdate, Index, InsertPair, KeyValueMap, LogView,
    SelfUpdate, Table, VecTable,
};

fn pair(key: &str, value: &str) -> (String, String) {
    (key.to_string(), value.to_string())
}

fn insert(key: &str, value: &str) -> HashMapUpdate {
    HashMapUpdate::Insert { key: key.to_string(), value: value.to_string() }
}

fn remove(key: &str) -> HashMapUpdate {
    HashMapUpdate::Remove { key: key.to_string() }
}

fn as_map(map: KeyValueMap) -> HashMap<String, String> {
    map.entries().into_iter().collect()
}

fn expect(pairs: &[(&str, &str)]) -> HashMap<String, String> {
    pairs.iter().map(|(k, v)| (k.to_string(), v.to_string())).collect()
}

fn pairs_table(pairs: &[(&str, &str)]) -> VecTable<(String, String)> {
    let mut table = VecTable::new();
    table.append(pairs.iter().map(|(k, v)| pair(k, v)).collect());
    table
}

fn updates_table(updates: Vec<HashMapUpdate>) -> VecTable<HashMapUpdate> {
    let mut table = VecTable::new();
    table.append(updates);
    table
}

/// The state at `seq` computed by replaying from nothing.
fn replayed<V: LogView<Event = HashMapUpdate>>(view: &V, seq: u64) -> HashMap<String, String> {
    let fresh = HashMapIndex::new(SelfUpdate);
    as_map(fresh.get_all(view, seq))
}

fn check_get_all(build: fn() -> VecTable<(String, String)>) {
    let table = build();
    let current_seq = table.get_current_seq();
    let mut hash_map_index = HashMapIndex::new(InsertPair);
    hash_map_index.update(&table, current_seq);
    assert_eq!(current_seq, 4);
    assert_eq!(hash_map_index.get_current_seq(), 4);
    assert_eq!(as_map(hash_map_index.get_all(&table, 0)), expect(&[]));
    assert_eq!(as_map(hash_map_index.get_all(&table, 1)), expect(&[("key1", "value1")]));
    assert_eq!(
        as_map(hash_map_index.get_all(&table, 2)),
        expect(&[("key1", "value1"), ("key2", "value2")])
    );
    assert_eq!(
        as_map(hash_map_index.get_all(&table, 3)),
        expect(&[("key1", "value1"), ("key2", "value2"), ("key3", "value3")])
    );
}

fn four_pairs() -> VecTable<(String, String)> {
    pairs_table(&[("key1", "value1"), ("key2", "value2"), ("key3", "value3"), ("key4", "value4")])
}

fn overwritten_pairs() -> VecTable<(String, String)> {
    pairs_table(&[("key1", "value1"), ("key2", "value2"), ("key3", "value3"), ("key2", "VALUE2")])
}

#[test]
fn hash_map_index_get_all() {
    check_get_all(four_pairs);
    let table = four_pairs();
    let mut hash_map_index = HashMapIndex::new(InsertPair);
    hash_map_index.update(&table, table.get_current_seq());
    assert_eq!(
        as_map(hash_map_index.get_all(&table, 4)),
        expect(&[("key1", "value1"), ("key2", "value2"), ("key3", "value3"), ("key4", "value4")])
    );
}

#[test]
fn hash_map_index_get_all_overwrite() {
    check_get_all(overwritten_pairs);
    let table = overwritten_pairs();
    let mut hash_map_index = HashMapIndex::new(InsertPair);
    hash_map_index.update(&table, table.get_current_seq());
    assert_eq!(
        as_map(hash_map_index.get_all(&table, 4)),
        expect(&[("key1", "value1"), ("key2", "VALUE2"), ("key3", "value3")])
    );
}

fn check_clear(table: &VecTable<HashMapUpdate>) {
    let current_seq = table.get_current_seq();
    let mut hash_map_index = HashMapIndex::new(SelfUpdate);
    hash_map_index.update(table, current_seq);
    assert_eq!(current_seq, 4);
    assert_eq!(hash_map_index.get_current_seq(), 4);
    assert_eq!(as_map(hash_map_index.get_all(table, 0)), expect(&[]));
    assert_eq!(as_map(hash_map_index.get_all(table, 1)), expect(&[("key1", "value1")]));
    assert_eq!(
        as_map(hash_map_index.get_all(table, 2)),
        expect(&[("key1", "value1"), ("key2", "value2")])
    );
    assert_eq!(as_map(hash_map_index.get_all(table, 3)), expect(&[]));
    assert_eq!(as_map(hash_map_index.get_all(table, 4)), expect(&[("key3", "value3")]));
}

fn cleared_updates() -> VecTable<HashMapUpdate> {
    updates_table(vec![
        insert("key1", "value1"),
        insert("key2", "value2"),
        HashMapUpdate::Clear,
        insert("key3", "value3"),
    ])
}

#[test]
fn hash_map_index_get_all_clear() {
    check_clear(&cleared_updates());
}

#[test]
fn hash_map_log_get_all() {
    check_get_all(four_pairs);
    let table = four_pairs();
    let mut hash_map_log = HashMapIndex::new(InsertPair);
    hash_map_log.update(&table, table.get_current_seq());
    assert_eq!(
        as_map(hash_map_log.get_all(&table, 4)),
        expect(&[("key1", "value1"), ("key2", "value2"), ("key3", "value3"), ("key4", "value4")])
    );
}

#[test]
fn hash_map_log_get_all_overwrite() {
    check_get_all(overwritten_pairs);
    let table = overwritten_pairs();
    let mut hash_map_log = HashMapIndex::new(InsertPair);
    hash_map_log.update(&table, table.get_current_seq());
    assert_eq!(
        as_map(hash_map_log.get_all(&table, 4)),
        expect(&[("key1", "value1"), ("key2", "VALUE2"), ("key3", "value3")])
    );
}

#[test]
fn hash_map_log_get_all_clear() {
    check_clear(&cleared_updates());
}

#[test]
fn get_all_clear_multiple_modifications() {
    let table = updates_table(vec![
        insert("key1", "value1"),
        HashMapUpdate::Clear,
        insert("key1", "value1"),
        insert("key1", "VALUE1"),
    ]);
    let log_current_seq = table.get_current_seq();
    let mut hash_map_log = HashMapIndex::new(SelfUpdate);
    hash_map_log.update(&table, log_current_seq);
    assert_eq!(log_current_seq, 4);
    assert_eq!(hash_map_log.get_current_seq(), 4);
    assert_eq!(as_map(hash_map_log.get_all(&table, 0)), expect(&[]));
    assert_eq!(as_map(hash_map_log.get_all(&table, 1)), expect(&[("key1", "value1")]));
    assert_eq!(as_map(hash_map_log.get_all(&table, 2)), expect(&[]));
    assert_eq!(as_map(hash_map_log.get_all(&table, 3)), expect(&[("key1", "value1")]));
    assert_eq!(as_map(hash_map_log.get_all(&table, 4)), expect(&[("key1", "VALUE1")]));
}

#[test]
fn clear_example_at_every_seq() {
    let table = cleared_updates();
    assert_eq!(replayed(&table, 0), expect(&[]));
    assert_eq!(replayed(&table, 1), expect(&[("key1", "value1")]));
    assert_eq!(replayed(&table, 2), expect(&[("key1", "value1"), ("key2", "value2")]));
    assert_eq!(replayed(&table, 3), expect(&[]));
    assert_eq!(replayed(&table, 4), expect(&[("key3", "value3")]));
}

fn mixed_updates() -> Vec<HashMapUpdate> {
    vec![
        insert("a", "1"),
        insert("b", "2"),
        remove("a"),
        insert("c", "3"),
        HashMapUpdate::Clear,
        insert("b", "4"),
        insert("a", "5"),
        remove("b"),
        insert("d", "6"),
        HashMapUpdate::Clear,
        insert("a", "7"),
        remove("z"),
        insert("a", "8"),
    ]
}

#[test]
fn replay_equivalence_behind_at_and_ahead() {
    let table = updates_table(mixed_updates());
    let last = table.get_current_seq();
    for watermark in 0..=last {
        let mut index = HashMapIndex::new(SelfUpdate);
        index.update(&table, watermark);
        assert_eq!(index.get_current_seq(), watermark);
        for seq in 0..=last + 2 {
            assert_eq!(as_map(index.get_all(&table, seq)), replayed(&table, seq));
        }
    }
}

#[test]
fn get_matches_get_all() {
    let table = updates_table(mixed_updates());
    let last = table.get_current_seq();
    for watermark in 0..=last {
        let mut index = HashMapIndex::new(SelfUpdate);
        index.update(&table, watermark);
        for seq in 0..=last + 1 {
            let all = replayed(&table, seq);
            for key in ["a", "b", "c", "d", "z"] {
                assert_eq!(index.get(&table, seq, &key.to_string()), all.get(key).cloned());
            }
        }
    }
}

#[test]
fn get_single_keys() {
    let table = cleared_updates();
    let mut index = HashMapIndex::new(SelfUpdate);
    index.update(&table, 4);
    let key1 = "key1".to_string();
    let key3 = "key3".to_string();
    assert_eq!(index.get(&table, 1, &key1), Some("value1".to_string()));
    assert_eq!(index.get(&table, 2, &key1), Some("value1".to_string()));
    assert_eq!(index.get(&table, 3, &key1), None);
    assert_eq!(index.get(&table, 3, &key3), None);
    assert_eq!(index.get(&table, 4, &key3), Some("value3".to_string()));
    assert_eq!(index.get(&table, 0, &key1), None);
}

#[test]
fn rewind_keeps_key_removed_before_seq() {
    // "a" is removed at 2, re-inserted after the read seq: at 2 it must be absent.
    let table = updates_table(vec![insert("a", "1"), remove("a"), insert("a", "2")]);
    let mut index = HashMapIndex::new(SelfUpdate);
    index.update(&table, 3);
    assert_eq!(as_map(index.get_all(&table, 2)), expect(&[]));
    assert_eq!(as_map(index.get_all(&table, 1)), expect(&[("a", "1")]));
}

#[test]
fn rewind_through_a_clear_stops_at_the_clear() {
    let table = updates_table(vec![
        insert("a", "1"),
        HashMapUpdate::Clear,
        insert("b", "2"),
        insert("a", "3"),
        HashMapUpdate::Clear,
        insert("c", "4"),
    ]);
    let mut index = HashMapIndex::new(SelfUpdate);
    index.update(&table, 6);
    assert_eq!(as_map(index.get_all(&table, 4)), expect(&[("b", "2"), ("a", "3")]));
    assert_eq!(as_map(index.get_all(&table, 2)), expect(&[]));
    assert_eq!(as_map(index.get_all(&table, 1)), expect(&[("a", "1")]));
}

#[test]
fn update_is_a_no_op_at_or_below_the_watermark() {
    let table = four_pairs();
    let mut index = HashMapIndex::new(InsertPair);
    index.update(&table, 3);
    index.update(&table, 2);
    assert_eq!(index.get_current_seq(), 3);
    index.update(&table, 3);
    assert_eq!(index.get_current_seq(), 3);
    assert_eq!(as_map(index.get_all(&table, 3)), replayed_pairs(&table, 3));
    index.update(&table, 10);
    assert_eq!(index.get_current_seq(), 10);
    assert_eq!(as_map(index.get_all(&table, 10)), replayed_pairs(&table, 10));
}

fn replayed_pairs(table: &VecTable<(String, String)>, seq: u64) -> HashMap<String, String> {
    as_map(HashMapIndex::new(InsertPair).get_all(table, seq))
}

#[test]
fn index_over_a_composite() {
    let mut views = Vec::new();
    for _ in 0..2 {
        views.push(VecTable::<HashMapUpdate>::new());
    }
    let mut composite = CompositeView::new(views);
    composite.views_mut()[0].append(vec![insert("k", "from0"), insert("x", "1")]);
    composite.views_mut()[1].append(vec![insert("k", "from1"), HashMapUpdate::Clear]);
    // order: (1,0) k=from0, (1,1) k=from1, (2,0) x=1, (2,1) clear
    let fresh = HashMapIndex::new(SelfUpdate);
    assert_eq!(as_map(fresh.get_all(&composite, 1)), expect(&[("k", "from1")]));
    assert_eq!(as_map(fresh.get_all(&composite, 2)), expect(&[]));
    let mut index = HashMapIndex::new(SelfUpdate);
    index.update(&composite, 2);
    assert_eq!(as_map(index.get_all(&composite, 1)), expect(&[("k", "from1")]));
    assert_eq!(index.get(&composite, 1, &"k".to_string()), Some("from1".to_string()));
    assert_eq!(index.get(&composite, 0, &"k".to_string()), None);
}

#[test]
fn update_past_the_source_folds_what_exists() {
    let table = four_pairs();
    let mut index = HashMapIndex::new(InsertPair);
    index.update(&table, 100);
    assert_eq!(index.get_current_seq(), 100);
    assert_eq!(as_map(index.get_all(&table, 100)), replayed_pairs(&table, 4));
    assert_eq!(as_map(index.get_all(&table, 2)), replayed_pairs(&table, 2));
}
