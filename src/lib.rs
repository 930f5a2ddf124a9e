//! An append-only, sequence-numbered event log with bidirectional range scans,
//! temporal key/value indexes that answer queries at any sequence number, and a
//! composite view that merges several logs in `(seq, member)` order.
use vstd::prelude::*;

pub mod composite;
pub mod database;
pub mod in_memory_log;
pub mod index;
pub mod kv_map;
pub mod laws;
pub mod merge;
pub mod scan;
pub mod table;
pub mod update;
pub mod vector_log;

pub use composite::{CompositeView, CompositeViewIterator};
pub use database::SynchronousDatabase;
pub use in_memory_log::{InMemoryLog, InMemoryLogIterator};
pub use index::HashMapIndex;
pub use kv_map::KeyValueMap;
pub use scan::{le_count, scan_spec, seqs_nondecreasing, seqs_positive, step_back, step_front};
pub use table::{VecTable, VecTableIterator};
pub use update::{HashMapUpdate, InsertPair, Projection, SelfUpdate, UpdateOp};
pub use vector_log::{VectorLog, VectorLogIterator};

verus! {

/// A read-only, sequence-ordered stream of events.
///
/// Its records are `(seq, event)` pairs with non-decreasing seqs. A scan is
/// described by a cursor: `scan(a, b)` with `a <= b` covers the records with
/// `a < seq <= b` in ascending order, and with `a > b` the records with
/// `b < seq <= a` in descending order. `next` takes from the front of what
/// remains, `next_back` from the back. No work is done until a cursor is advanced.
pub trait LogView {
    type Event;

    type Cursor;

    /// The view's internal invariant.
    spec fn wf(&self) -> bool;

    /// Every record, in forward scan order.
    spec fn records(&self) -> Seq<(u64, Self::Event)>;

    /// The watermark that `get_current_seq` reports.
    spec fn current(&self) -> u64;

    /// The cursor belongs to this view.
    spec fn cursor_wf(&self, c: &Self::Cursor) -> bool;

    /// What the cursor has still to yield, in the order `next` yields it.
    spec fn remaining(&self, c: &Self::Cursor) -> Seq<(u64, Self::Event)>;

    proof fn lemma_records_sorted(&self)
        requires
            self.wf(),
        ensures
            seqs_nondecreasing(self.records()),
            seqs_positive(self.records()),
    ;

    /// Starts a scan between `start_exclusive` and `end_inclusive`.
    fn scan(&self, start_exclusive: u64, end_inclusive: u64) -> (c: Self::Cursor)
        requires
            self.wf(),
        ensures
            self.cursor_wf(&c),
            self.remaining(&c) == scan_spec(self.records(), start_exclusive, end_inclusive),
    ;

    /// Yields the next record of the scan.
    fn next<'a>(&'a self, c: &mut Self::Cursor) -> (r: Option<(u64, &'a Self::Event)>)
        requires
            self.wf(),
            self.cursor_wf(old(c)),
        ensures
            self.cursor_wf(final(c)),
            step_front(self.remaining(old(c)), self.remaining(final(c)), r),
    ;

    /// Yields the last record of the scan that is still to come.
    fn next_back<'a>(&'a self, c: &mut Self::Cursor) -> (r: Option<(u64, &'a Self::Event)>)
        requires
            self.wf(),
            self.cursor_wf(old(c)),
        ensures
            self.cursor_wf(final(c)),
            step_back(self.remaining(old(c)), self.remaining(final(c)), r),
    ;

    /// The seq of the record that `next` would yield.
    fn peek(&self, c: &Self::Cursor) -> (r: Option<u64>)
        requires
            self.wf(),
            self.cursor_wf(c),
        ensures
            r == if self.remaining(c).len() == 0 {
                None
            } else {
                Some(self.remaining(c)[0].0)
            },
    ;

    /// The seq of the record that `next_back` would yield.
    fn peek_back(&self, c: &Self::Cursor) -> (r: Option<u64>)
        requires
            self.wf(),
            self.cursor_wf(c),
        ensures
            r == if self.remaining(c).len() == 0 {
                None
            } else {
                Some(self.remaining(c).last().0)
            },
    ;

    /// The seq up to and including which the view is stable.
    fn get_current_seq(&self) -> (r: u64)
        ensures
            r == self.current(),
    ;
}

/// A view that can be written to.
pub trait Table: LogView {
    /// Assigns each event the next seq, in submission order, and returns the seqs.
    fn append(&mut self, events: Vec<Self::Event>) -> (r: Vec<u64>)
        requires
            old(self).wf(),
            old(self).current() + events@.len() <= u64::MAX,
        ensures
            final(self).wf(),
            r@.len() == events@.len(),
            forall|i: int| 0 <= i < r@.len() ==> #[trigger] r@[i] == old(self).current() + 1 + i,
            final(self).current() == old(self).current() + events@.len(),
            final(self).records() == old(self).records() + Seq::new(
                events@.len(),
                |i: int| (r@[i], events@[i]),
            ),
    ;

    /// Raises the current seq to `seq` unless it is already greater.
    fn set_current_seq(&mut self, seq: u64)
        requires
            old(self).wf(),
        ensures
            final(self).wf(),
            final(self).records() == old(self).records(),
            final(self).current() == if seq > old(self).current() {
                seq
            } else {
                old(self).current()
            },
    ;
}

/// A projection kept up to date from a view, one watermark at a time.
pub trait Index: Sized {
    type Event;

    /// What the index is configured with; no update changes it.
    type Config;

    /// The index's configuration.
    spec fn config(&self) -> Self::Config;

    /// The seq up to and including which every change has been folded in.
    spec fn watermark(&self) -> u64;

    /// The index agrees with these records up to its watermark.
    spec fn consistent(&self, recs: Seq<(u64, Self::Event)>) -> bool;

    /// Records above the watermark do not concern the index.
    proof fn lemma_extend(&self, recs: Seq<(u64, Self::Event)>, more: Seq<(u64, Self::Event)>)
        requires
            self.consistent(recs),
            forall|i: int| 0 <= i < more.len() ==> #[trigger] more[i].0 > self.watermark(),
        ensures
            self.consistent(recs + more),
    ;

    /// Folds in every change up to and including `seq`; a `seq` at or below
    /// the watermark changes nothing.
    fn update<S: LogView<Event = Self::Event>>(&mut self, source: &S, seq: u64)
        requires
            source.wf(),
            old(self).consistent(source.records()),
        ensures
            final(self).consistent(source.records()),
            final(self).config() == old(self).config(),
            seq <= old(self).watermark() ==> *final(self) == *old(self),
            final(self).watermark() == if seq > old(self).watermark() {
                seq
            } else {
                old(self).watermark()
            },
    ;

    /// The watermark.
    fn get_current_seq(&self) -> (r: u64)
        ensures
            r == self.watermark(),
    ;
}

} // verus!
