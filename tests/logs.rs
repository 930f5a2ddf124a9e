use seqlog::{InMemoryLog, VectorLog};

fn collect(log: &InMemoryLog<i32>, min: u64, max: u64) -> Vec<i32> {
    let mut it = log.iter(min, max);
    let mut out = Vec::new();
    while let Some(event) = it.next() {
        out.push(*event);
    }
    out
}

fn collect_rev(log: &InMemoryLog<i32>, min: u64, max: u64) -> Vec<i32> {
    let mut it = log.iter(min, max);
    let mut out = Vec::new();
    while let Some(event) = it.next_back() {
        out.push(*event);
    }
    out
}

fn write_four(log: &mut InMemoryLog<i32>) {
    assert_eq!(log.write(12), 1);
    assert_eq!(log.write(34), 2);
    assert_eq!(log.write(56), 3);
    assert_eq!(log.write(78), 4);
}

fn scan(log: &VectorLog<i32>, start: u64, end: u64) -> Vec<i32> {
    let mut it = log.scan(start, end);
    let mut out = Vec::new();
    while let Some((_, event)) = it.next() {
        out.push(*event);
    }
    out
}

fn scan_rev(log: &VectorLog<i32>, start: u64, end: u64) -> Vec<i32> {
    let mut it = log.scan(start, end);
    let mut out = Vec::new();
    while let Some((_, event)) = it.next_back() {
        out.push(*event);
    }
    out
}

#[test]
fn in_memory_log_iter_none() {
    let log = InMemoryLog::<i32>::new();
    assert_eq!(collect(&log, u64::MIN, u64::MAX), Vec::<i32>::new());
}

#[test]
fn in_memory_log_iter_none_rev() {
    let log = InMemoryLog::<i32>::new();
    assert_eq!(collect_rev(&log, u64::MIN, u64::MAX), Vec::<i32>::new());
}

#[test]
fn in_memory_log_iter_one() {
    let mut log = InMemoryLog::<i32>::new();
    assert_eq!(log.write(12), 1);
    assert_eq!(collect(&log, u64::MIN, u64::MAX), vec![12]);
}

#[test]
fn in_memory_log_iter_one_rev() {
    let mut log = InMemoryLog::<i32>::new();
    assert_eq!(log.write(12), 1);
    assert_eq!(collect_rev(&log, u64::MIN, u64::MAX), vec![12]);
}

#[test]
fn in_memory_log_iter_multiple() {
    let mut log = InMemoryLog::<i32>::new();
    write_four(&mut log);
    assert_eq!(collect(&log, u64::MIN, u64::MAX), vec![12, 34, 56, 78]);
}

#[test]
fn in_memory_log_iter_multiple_rev() {
    let mut log = InMemoryLog::<i32>::new();
    write_four(&mut log);
    assert_eq!(collect_rev(&log, u64::MIN, u64::MAX), vec![78, 56, 34, 12]);
}

#[test]
fn in_memory_log_iter_partial_one() {
    let mut log = InMemoryLog::<i32>::new();
    write_four(&mut log);
    assert_eq!(collect(&log, 1, 2), vec![34]);
}

#[test]
fn in_memory_log_iter_partial_one_rev() {
    let mut log = InMemoryLog::<i32>::new();
    write_four(&mut log);
    assert_eq!(collect_rev(&log, 1, 2), vec![34]);
}

#[test]
fn in_memory_log_iter_partial_multiple() {
    let mut log = InMemoryLog::<i32>::new();
    write_four(&mut log);
    assert_eq!(collect(&log, 1, 3), vec![34, 56]);
}

#[test]
fn in_memory_log_iter_partial_multiple_rev() {
    let mut log = InMemoryLog::<i32>::new();
    write_four(&mut log);
    assert_eq!(collect_rev(&log, 1, 3), vec![56, 34]);
}

#[test]
fn vector_log_iter_none() {
    let log = VectorLog::<i32>::new();
    assert_eq!(log.get_current_seq(), 0);
    assert_eq!(scan(&log, u64::MIN, u64::MAX), Vec::<i32>::new());
}

#[test]
fn vector_log_iter_none_rev() {
    let log = VectorLog::<i32>::new();
    assert_eq!(scan_rev(&log, u64::MIN, u64::MAX), Vec::<i32>::new());
}

#[test]
fn vector_log_iter_one() {
    let mut log = VectorLog::<i32>::new();
    log.write(vec![12]);
    assert_eq!(log.get_current_seq(), 1);
    assert_eq!(scan(&log, u64::MIN, u64::MAX), vec![12]);
}

#[test]
fn vector_log_iter_one_rev() {
    let mut log = VectorLog::<i32>::new();
    log.write(vec![12]);
    assert_eq!(log.get_current_seq(), 1);
    assert_eq!(scan_rev(&log, u64::MIN, u64::MAX), vec![12]);
}

#[test]
fn vector_log_iter_multiple() {
    let mut log = VectorLog::<i32>::new();
    log.write(vec![12, 34, 56, 78]);
    assert_eq!(log.get_current_seq(), 4);
    assert_eq!(scan(&log, u64::MIN, u64::MAX), vec![12, 34, 56, 78]);
}

#[test]
fn vector_log_iter_multiple_rev() {
    let mut log = VectorLog::<i32>::new();
    log.write(vec![12, 34, 56, 78]);
    assert_eq!(log.get_current_seq(), 4);
    assert_eq!(scan_rev(&log, u64::MIN, u64::MAX), vec![78, 56, 34, 12]);
}

#[test]
fn vector_log_iter_partial_one() {
    let mut log = VectorLog::<i32>::new();
    log.write(vec![12, 34, 56, 78]);
    assert_eq!(log.get_current_seq(), 4);
    assert_eq!(scan(&log, 1, 2), vec![34]);
}

#[test]
fn vector_log_iter_partial_one_rev() {
    let mut log = VectorLog::<i32>::new();
    log.write(vec![12, 34, 56, 78]);
    assert_eq!(log.get_current_seq(), 4);
    assert_eq!(scan_rev(&log, 1, 2), vec![34]);
}

#[test]
fn vector_log_iter_partial_multiple() {
    let mut log = VectorLog::<i32>::new();
    log.write(vec![12, 34, 56, 78]);
    assert_eq!(log.get_current_seq(), 4);
    assert_eq!(scan(&log, 1, 3), vec![34, 56]);
}

#[test]
fn vector_log_iter_partial_multiple_rev() {
    let mut log = VectorLog::<i32>::new();
    log.write(vec![12, 34, 56, 78]);
    assert_eq!(log.get_current_seq(), 4);
    assert_eq!(scan_rev(&log, 1, 3), vec![56, 34]);
}

#[test]
fn in_memory_log_bounds_out_of_order_yield_nothing() {
    let mut log = InMemoryLog::<i32>::new();
    write_four(&mut log);
    assert_eq!(collect(&log, 3, 1), Vec::<i32>::new());
    assert_eq!(collect_rev(&log, 3, 1), Vec::<i32>::new());
    assert_eq!(collect(&log, 4, u64::MAX), Vec::<i32>::new());
}

#[test]
fn in_memory_log_ends_meet() {
    let mut log = InMemoryLog::<i32>::new();
    write_four(&mut log);
    let mut it = log.iter(0, 4);
    assert_eq!(it.next(), Some(&12));
    assert_eq!(it.next_back(), Some(&78));
    assert_eq!(it.next_back(), Some(&56));
    assert_eq!(it.next(), Some(&34));
    assert_eq!(it.next(), None);
    assert_eq!(it.next_back(), None);
}

#[test]
fn vector_log_direction_from_bounds() {
    let mut log = VectorLog::<i32>::new();
    log.write(vec![12, 34, 56, 78]);
    assert_eq!(scan(&log, 3, 1), vec![56, 34]);
    assert_eq!(scan_rev(&log, 3, 1), vec![34, 56]);
    let mut it = log.scan(1, 3);
    assert_eq!(it.next(), Some((2, &34)));
    assert_eq!(it.next(), Some((3, &56)));
    assert_eq!(it.next(), None);
    log.write(vec![90]);
    assert_eq!(log.get_current_seq(), 5);
    assert_eq!(scan(&log, u64::MAX, 3), vec![90, 78]);
}
