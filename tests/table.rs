use seqlog::{LogView, Table, VecTable};

fn forward<V: LogView>(view: &V, start: u64, end: u64) -> Vec<(u64, V::Event)>
where
    V::Event: Clone,
{
    let mut cursor = view.scan(start, end);
    let mut out = Vec::new();
    while let Some((seq, event)) = view.next(&mut cursor) {
        out.push((seq, event.clone()));
    }
    out
}

fn backward<V: LogView>(view: &V, start: u64, end: u64) -> Vec<(u64, V::Event)>
where
    V::Event: Clone,
{
    let mut cursor = view.scan(start, end);
    let mut out = Vec::new();
    while let Some((seq, event)) = view.next_back(&mut cursor) {
        out.push((seq, event.clone()));
    }
    out
}

fn events(records: Vec<(u64, i32)>) -> Vec<i32> {
    records.into_iter().map(|(_, event)| event).collect()
}

#[test]
fn vec_scan_none() {
    let table = VecTable::<i32>::new();
    assert_eq!(table.get_current_seq(), 0);
    assert_eq!(events(forward(&table, u64::MIN, u64::MAX)), Vec::<i32>::new());
}

#[test]
fn vec_scan_one() {
    let mut table = VecTable::<i32>::new();
    table.append(vec![12]);
    assert_eq!(table.get_current_seq(), 1);
    assert_eq!(events(forward(&table, u64::MIN, u64::MAX)), vec![12]);
}

#[test]
fn scan_multiple() {
    let mut table = VecTable::<i32>::new();
    table.append(vec![12, 34, 56, 78]);
    assert_eq!(table.get_current_seq(), 4);
    assert_eq!(events(forward(&table, u64::MIN, u64::MAX)), vec![12, 34, 56, 78]);
}

#[test]
fn scan_partial_one() {
    let mut table = VecTable::<i32>::new();
    table.append(vec![12, 34, 56, 78]);
    assert_eq!(table.get_current_seq(), 4);
    assert_eq!(events(forward(&table, 1, 2)), vec![34]);
}

#[test]
fn scan_partial_multiple() {
    let mut table = VecTable::<i32>::new();
    table.append(vec![12, 34, 56, 78]);
    assert_eq!(table.get_current_seq(), 4);
    assert_eq!(events(forward(&table, 1, 3)), vec![34, 56]);
}

#[test]
fn scan_none_rev() {
    let table = VecTable::<i32>::new();
    assert_eq!(events(backward(&table, u64::MIN, u64::MAX)), Vec::<i32>::new());
}

#[test]
fn scan_one_rev() {
    let mut table = VecTable::<i32>::new();
    table.append(vec![12]);
    assert_eq!(table.get_current_seq(), 1);
    assert_eq!(events(backward(&table, u64::MIN, u64::MAX)), vec![12]);
}

#[test]
fn scan_multiple_rev() {
    let mut table = VecTable::<i32>::new();
    table.append(vec![12, 34, 56, 78]);
    assert_eq!(table.get_current_seq(), 4);
    assert_eq!(events(backward(&table, u64::MIN, u64::MAX)), vec![78, 56, 34, 12]);
}

#[test]
fn scan_partial_one_rev() {
    let mut table = VecTable::<i32>::new();
    table.append(vec![12, 34, 56, 78]);
    assert_eq!(table.get_current_seq(), 4);
    assert_eq!(events(backward(&table, 1, 2)), vec![34]);
}

#[test]
fn scan_partial_multiple_rev() {
    let mut table = VecTable::<i32>::new();
    table.append(vec![12, 34, 56, 78]);
    assert_eq!(table.get_current_seq(), 4);
    assert_eq!(events(backward(&table, 1, 3)), vec![56, 34]);
}

#[test]
fn append_returns_assigned_seqs() {
    let mut table = VecTable::<i32>::new();
    assert_eq!(table.append(vec![12, 34]), vec![1, 2]);
    assert_eq!(table.append(vec![]), Vec::<u64>::new());
    assert_eq!(table.append(vec![56]), vec![3]);
    assert_eq!(table.get_current_seq(), 3);
}

#[test]
fn scan_yields_seqs_in_both_directions() {
    let mut table = VecTable::<i32>::new();
    table.append(vec![12, 34, 56, 78]);
    assert_eq!(forward(&table, 1, 3), vec![(2, 34), (3, 56)]);
    assert_eq!(forward(&table, 3, 1), vec![(3, 56), (2, 34)]);
}

#[test]
fn reversed_forward_scan_is_backward_scan() {
    let mut table = VecTable::<i32>::new();
    table.append(vec![12, 34, 56, 78, 90]);
    for a in 0..7u64 {
        for b in a..7u64 {
            let mut fwd = forward(&table, a, b);
            fwd.reverse();
            assert_eq!(fwd, forward(&table, b, a));
            assert_eq!(backward(&table, a, b), forward(&table, b, a));
            assert_eq!(backward(&table, b, a), forward(&table, a, b));
        }
    }
}

#[test]
fn scan_range_is_exact() {
    let mut table = VecTable::<i32>::new();
    table.set_current_seq(10);
    table.append(vec![1, 2]);
    table.set_current_seq(20);
    table.append(vec![3]);
    // seqs are 11, 12 and 21
    assert_eq!(forward(&table, 0, u64::MAX), vec![(11, 1), (12, 2), (21, 3)]);
    assert_eq!(forward(&table, 11, 20), vec![(12, 2)]);
    assert_eq!(forward(&table, 12, 21), vec![(21, 3)]);
    assert_eq!(forward(&table, 21, u64::MAX), Vec::<(u64, i32)>::new());
    assert_eq!(forward(&table, 5, 5), Vec::<(u64, i32)>::new());
    assert_eq!(forward(&table, 21, 10), vec![(21, 3), (12, 2), (11, 1)]);
}

#[test]
fn set_current_seq_never_lowers() {
    let mut table = VecTable::<i32>::new();
    table.append(vec![1, 2, 3]);
    table.set_current_seq(1);
    assert_eq!(table.get_current_seq(), 3);
    table.set_current_seq(7);
    assert_eq!(table.get_current_seq(), 7);
    assert_eq!(table.append(vec![4]), vec![8]);
}

#[test]
fn peek_matches_next() {
    let mut table = VecTable::<i32>::new();
    table.append(vec![12, 34, 56]);
    let mut cursor = table.scan(0, 3);
    assert_eq!(table.peek(&cursor), Some(1));
    assert_eq!(table.peek_back(&cursor), Some(3));
    assert_eq!(table.next(&mut cursor), Some((1, &12)));
    assert_eq!(table.next_back(&mut cursor), Some((3, &56)));
    assert_eq!(table.peek(&cursor), Some(2));
    assert_eq!(table.next(&mut cursor), Some((2, &34)));
    assert_eq!(table.peek(&cursor), None);
    assert_eq!(table.next(&mut cursor), None);
    assert_eq!(table.next_back(&mut cursor), None);
}

#[test]
fn bounds_above_current_seq_scan_as_current_seq() {
    let mut table = VecTable::<i32>::new();
    table.append(vec![12, 34, 56]);
    let c = table.get_current_seq();
    assert_eq!(forward(&table, 1, 50), forward(&table, 1, c));
    assert_eq!(forward(&table, 50, 1), forward(&table, c, 1));
    assert_eq!(forward(&table, 40, 50), Vec::<(u64, i32)>::new());
}
