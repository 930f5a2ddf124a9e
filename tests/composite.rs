use seqlog::{CompositeView, LogView, Table, VecTable};

fn forward<V: LogView>(view: &V, start: u64, end: u64) -> Vec<(u64, V::Event)>
where
    V::Event: Clone,
{
    let mut cursor = view.scan(start, end);
    let mut out = Vec::new();
    while let Some((seq, event)) = view.next(&mut cursor) {
        out.push((seq, event.clone()));
    }
    out
}

fn backward<V: LogView>(view: &V, start: u64, end: u64) -> Vec<(u64, V::Event)>
where
    V::Event: Clone,
{
    let mut cursor = view.scan(start, end);
    let mut out = Vec::new();
    while let Some((seq, event)) = view.next_back(&mut cursor) {
        out.push((seq, event.clone()));
    }
    out
}

fn events(records: Vec<(u64, i32)>) -> Vec<i32> {
    records.into_iter().map(|(_, event)| event).collect()
}

fn composite_of(n: usize) -> CompositeView<VecTable<i32>> {
    let mut views = Vec::new();
    for _ in 0..n {
        views.push(VecTable::<i32>::new());
    }
    CompositeView::new(views)
}

#[test]
fn composite_scan_none() {
    let composite = composite_of(5);
    assert_eq!(composite.get_current_seq(), 0);
    assert_eq!(events(forward(&composite, u64::MIN, u64::MAX)), Vec::<i32>::new());
}

#[test]
fn composite_scan_one() {
    let mut composite = composite_of(5);
    composite.views_mut()[0].append(vec![12]);
    assert_eq!(composite.get_current_seq(), 0);
    assert_eq!(events(forward(&composite, u64::MIN, u64::MAX)), vec![12]);
}

#[test]
fn scan_multiple_one_node() {
    let mut composite = composite_of(5);
    composite.views_mut()[0].append(vec![12, 34, 56]);
    assert_eq!(composite.get_current_seq(), 0);
    assert_eq!(events(forward(&composite, u64::MIN, u64::MAX)), vec![12, 34, 56]);
}

#[test]
fn scan_multiple_multiple_nodes() {
    let mut composite = composite_of(5);
    composite.views_mut()[0].append(vec![12]);
    composite.views_mut()[1].append(vec![34]);
    composite.views_mut()[2].append(vec![56]);
    assert_eq!(composite.get_current_seq(), 0);
    assert_eq!(events(forward(&composite, u64::MIN, u64::MAX)), vec![12, 34, 56]);
}

#[test]
fn scan_multiple_each_multiple_nodes() {
    let mut composite = composite_of(5);
    composite.views_mut()[0].append(vec![12, 56]);
    composite.views_mut()[1].append(vec![34, 90]);
    composite.views_mut()[2].append(vec![78]);
    assert_eq!(composite.get_current_seq(), 0);
    // ordered by (seq, node) pair
    assert_eq!(events(forward(&composite, u64::MIN, u64::MAX)), vec![12, 34, 78, 56, 90]);
}

#[test]
fn scan_multiple_each_multiple_nodes_sparse_seqs() {
    let mut composite = composite_of(5);
    composite.views_mut()[0].set_current_seq(0);
    composite.views_mut()[0].append(vec![12]);
    composite.views_mut()[1].set_current_seq(1);
    composite.views_mut()[1].append(vec![34]);
    composite.views_mut()[0].set_current_seq(2);
    composite.views_mut()[0].append(vec![56]);
    composite.views_mut()[2].set_current_seq(3);
    composite.views_mut()[2].append(vec![78]);
    composite.views_mut()[1].set_current_seq(4);
    composite.views_mut()[1].append(vec![90]);
    assert_eq!(composite.get_current_seq(), 0);
    // nodes don't matter in this case because seqs are unique
    assert_eq!(events(forward(&composite, u64::MIN, u64::MAX)), vec![12, 34, 56, 78, 90]);
}

#[test]
fn composite_backward_breaks_ties_by_highest_member() {
    let mut composite = composite_of(3);
    composite.views_mut()[0].append(vec![12, 56]);
    composite.views_mut()[1].append(vec![34, 90]);
    composite.views_mut()[2].append(vec![78]);
    assert_eq!(events(backward(&composite, 0, u64::MAX)), vec![90, 56, 78, 34, 12]);
    assert_eq!(events(forward(&composite, u64::MAX, 0)), vec![90, 56, 78, 34, 12]);
    assert_eq!(events(backward(&composite, u64::MAX, 0)), vec![12, 34, 78, 56, 90]);
}

#[test]
fn composite_tie_at_one_seq() {
    let mut composite = composite_of(2);
    composite.views_mut()[1].append(vec![2]);
    composite.views_mut()[0].append(vec![1]);
    assert_eq!(forward(&composite, 0, 1), vec![(1, 1), (1, 2)]);
    assert_eq!(forward(&composite, 1, 0), vec![(1, 2), (1, 1)]);
}

#[test]
fn composite_reverse_symmetry() {
    let mut composite = composite_of(3);
    composite.views_mut()[0].append(vec![1, 2, 3]);
    composite.views_mut()[1].set_current_seq(1);
    composite.views_mut()[1].append(vec![4, 5]);
    composite.views_mut()[2].append(vec![6]);
    for a in 0..6u64 {
        for b in a..6u64 {
            let mut fwd = forward(&composite, a, b);
            fwd.reverse();
            assert_eq!(fwd, forward(&composite, b, a));
            assert_eq!(backward(&composite, a, b), forward(&composite, b, a));
        }
    }
}

#[test]
fn composite_partial_scan() {
    let mut composite = composite_of(2);
    composite.views_mut()[0].append(vec![10, 11, 12]);
    composite.views_mut()[1].append(vec![20, 21, 22]);
    assert_eq!(forward(&composite, 1, 2), vec![(2, 11), (2, 21)]);
    assert_eq!(forward(&composite, 2, 1), vec![(2, 21), (2, 11)]);
    let mut cursor = composite.scan(0, 3);
    assert_eq!(composite.peek(&cursor), Some(1));
    assert_eq!(composite.peek_back(&cursor), Some(3));
    assert_eq!(composite.next(&mut cursor), Some((1, &10)));
    assert_eq!(composite.next_back(&mut cursor), Some((3, &22)));
    assert_eq!(composite.next_back(&mut cursor), Some((3, &12)));
    assert_eq!(composite.next(&mut cursor), Some((1, &20)));
}

#[test]
fn vector_clock_current_seq_is_minimum() {
    let mut composite = composite_of(3);
    assert_eq!(composite.get_current_seq(), 0);
    composite.vector_clock_update(0, 5);
    assert_eq!(composite.get_current_seq(), 0);
    composite.vector_clock_update(1, 3);
    assert_eq!(composite.get_current_seq(), 0);
    composite.vector_clock_update(2, 4);
    assert_eq!(composite.get_current_seq(), 3);
    composite.vector_clock_update(1, 9);
    assert_eq!(composite.get_current_seq(), 4);
    composite.vector_clock_update(2, 7);
    assert_eq!(composite.get_current_seq(), 5);
}

#[test]
fn vector_clock_monotonic() {
    let mut composite = composite_of(4);
    let updates = [(0, 1), (1, 2), (2, 2), (3, 1), (0, 4), (3, 3), (1, 5), (2, 6), (3, 8)];
    let mut last = composite.get_current_seq();
    for (member, seq) in updates {
        composite.vector_clock_update(member, seq);
        let now = composite.get_current_seq();
        assert!(now >= last);
        last = now;
    }
    assert_eq!(last, 4);
}

#[test]
fn empty_composite_current_seq() {
    let composite = composite_of(0);
    assert_eq!(composite.get_current_seq(), 0);
    assert_eq!(events(forward(&composite, 0, u64::MAX)), Vec::<i32>::new());
}
