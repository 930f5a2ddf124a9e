//! A log read through a borrowing iterator whose direction is given by the
//! order of the scan's bounds.
use vstd::prelude::*;

use crate::scan::{
    le_count, lemma_le_count_monotonic, lemma_le_count_unique, lemma_reverse_ends,
    partition_point, scan_spec, seqs_nondecreasing, seqs_positive, step_back, step_front,
};

verus! {

/// An in-memory log whose seqs run 1, 2, 3, ... in the order events are written.
pub struct VectorLog<Event> {
    seqs: Vec<u64>,
    events: Vec<Event>,
}

/// A scan over a [`VectorLog`] that borrows the log.
pub struct VectorLogIterator<'iter, Event> {
    log: &'iter VectorLog<Event>,
    reverse: bool,
    min_idx_inclusive: usize,
    max_idx_exclusive: usize,
}

impl<Event> VectorLog<Event> {
    /// Seqs strictly increase from 1 and pair up with the events.
    pub closed spec fn wf(&self) -> bool {
        &&& self.seqs@.len() == self.events@.len()
        &&& forall|i: int, j: int|
            0 <= i < j < self.seqs@.len() ==> self.seqs@[i] < self.seqs@[j]
        &&& forall|i: int| 0 <= i < self.seqs@.len() ==> #[trigger] self.seqs@[i] >= 1
    }

    /// The `(seq, event)` records, in the order written.
    pub closed spec fn records(&self) -> Seq<(u64, Event)> {
        Seq::new(self.seqs@.len(), |i: int| (self.seqs@[i], self.events@[i]))
    }

    /// The seq of the last record, 0 when there is none.
    pub open spec fn current(&self) -> u64 {
        if self.records().len() == 0 {
            0
        } else {
            self.records().last().0
        }
    }

    /// The records are sorted by seq, every seq is a real one, and none lies
    /// above the last.
    pub proof fn lemma_records_sorted(&self)
        requires
            self.wf(),
        ensures
            seqs_nondecreasing(self.records()),
            seqs_positive(self.records()),
            forall|i: int|
                0 <= i < self.records().len() ==> #[trigger] self.records()[i].0 <= self.current(),
    {
        let recs = self.records();
        assert forall|i: int, j: int| 0 <= i <= j < recs.len() implies recs[i].0 <= recs[j].0 by {
            if i < j {
                assert(self.seqs@[i] < self.seqs@[j]);
            }
        }
        assert forall|i: int| 0 <= i < recs.len() implies #[trigger] recs[i].0 <= self.current() by {
            if i < recs.len() - 1 {
                assert(self.seqs@[i] < self.seqs@[recs.len() - 1]);
            }
        }
    }

    /// An empty log.
    pub fn new() -> (r: Self)
        ensures
            r.wf(),
            r.records() == Seq::<(u64, Event)>::empty(),
    {
        VectorLog { seqs: Vec::new(), events: Vec::new() }
    }

    /// The seq of the last record, 0 when there is none.
    pub fn get_current_seq(&self) -> (r: u64)
        requires
            self.wf(),
        ensures
            r == self.current(),
    {
        let n = self.seqs.len();
        if n == 0 {
            0
        } else {
            self.seqs[n - 1]
        }
    }

    /// Appends the events, each with the seq after the last one.
    pub fn write(&mut self, events: Vec<Event>)
        requires
            old(self).wf(),
            old(self).current() + events@.len() <= u64::MAX,
        ensures
            final(self).wf(),
            final(self).current() == old(self).current() + events@.len(),
            final(self).records() == old(self).records() + Seq::new(
                events@.len(),
                |i: int| ((old(self).current() + 1 + i) as u64, events@[i]),
            ),
    {
        let mut events = events;
        let ghost evs = events@;
        let ghost start = self.current();
        let n0 = self.seqs.len();
        let mut next_seq = self.get_current_seq();
        let mut i: usize = 0;
        while i < events.len()
            invariant
                old(self).wf(),
                n0 == old(self).seqs@.len(),
                self.events@ == old(self).events@,
                events@ == evs,
                start == old(self).current(),
                start + evs.len() <= u64::MAX,
                i <= evs.len(),
                next_seq == start + i,
                self.seqs@.len() == n0 + i,
                forall|j: int| 0 <= j < n0 ==> #[trigger] self.seqs@[j] == old(self).seqs@[j],
                forall|j: int|
                    n0 <= j < self.seqs@.len() ==> #[trigger] self.seqs@[j] == start + 1 + (j
                        - n0),
            decreases evs.len() - i,
        {
            next_seq = next_seq + 1;
            self.seqs.push(next_seq);
            i = i + 1;
        }
        self.events.append(&mut events);
        proof {
            assert forall|a: int, b: int|
                0 <= a < b < self.seqs@.len() implies self.seqs@[a] < self.seqs@[b] by {
                if a < n0 && b >= n0 {
                    assert(old(self).seqs@[a] <= old(self).seqs@[n0 - 1]);
                    assert(old(self).records().last().0 == old(self).seqs@[n0 - 1]);
                }
            }
            assert forall|a: int| 0 <= a < self.seqs@.len() implies #[trigger] self.seqs@[a]
                >= 1 by {
                if a < n0 {
                    assert(self.seqs@[a] == old(self).seqs@[a]);
                }
            }
            assert(self.records() =~= old(self).records() + Seq::new(
                evs.len(),
                |j: int| ((start + 1 + j) as u64, evs[j]),
            ));
        }
    }

    proof fn lemma_cut(&self, s: u64, k: usize)
        requires
            self.wf(),
            k <= self.seqs@.len(),
            forall|j: int| 0 <= j < k ==> #[trigger] self.seqs@[j] <= s,
            forall|j: int| k <= j < self.seqs@.len() ==> #[trigger] self.seqs@[j] > s,
        ensures
            seqs_nondecreasing(self.records()),
            le_count(self.records(), s) == k,
    {
        let recs = self.records();
        assert forall|i: int, j: int| 0 <= i <= j < recs.len() implies recs[i].0 <= recs[j].0 by {
            if i < j {
                assert(self.seqs@[i] < self.seqs@[j]);
            }
        }
        assert forall|j: int| 0 <= j < k implies #[trigger] recs[j].0 <= s by {
            assert(self.seqs@[j] <= s);
        }
        assert forall|j: int| k <= j < recs.len() implies #[trigger] recs[j].0 > s by {
            assert(self.seqs@[j] > s);
        }
        lemma_le_count_unique(recs, s, k as int);
    }

    /// Scans between `start` and `end`: ascending over `(start, end]` when
    /// `start <= end`, descending over `(end, start]` otherwise.
    pub fn scan<'iter>(&'iter self, start: u64, end: u64) -> (r: VectorLogIterator<'iter, Event>)
        requires
            self.wf(),
        ensures
            r.wf(),
            r.log_view() == *self,
            r.remaining() == scan_spec(self.records(), start, end),
    {
        let reverse = start > end;
        let (min, max) = if reverse {
            (end, start)
        } else {
            (start, end)
        };
        let min_idx = partition_point(&self.seqs, min);
        let max_idx = partition_point(&self.seqs, max);
        proof {
            self.lemma_cut(min, min_idx);
            self.lemma_cut(max, max_idx);
            lemma_le_count_monotonic(self.records(), min, max);
        }
        VectorLogIterator { log: self, reverse, min_idx_inclusive: min_idx, max_idx_exclusive: max_idx }
    }
}

impl<'iter, Event> VectorLogIterator<'iter, Event> {
    /// The window lies within the log.
    pub closed spec fn wf(&self) -> bool {
        &&& self.log.wf()
        &&& self.min_idx_inclusive <= self.max_idx_exclusive <= self.log.seqs@.len()
    }

    /// The log scanned.
    pub closed spec fn log_view(&self) -> VectorLog<Event> {
        *self.log
    }

    closed spec fn window(&self) -> Seq<(u64, Event)> {
        self.log.records().subrange(self.min_idx_inclusive as int, self.max_idx_exclusive as int)
    }

    /// The records still to come, in the order `next` yields them.
    pub closed spec fn remaining(&self) -> Seq<(u64, Event)> {
        if self.reverse {
            self.window().reverse()
        } else {
            self.window()
        }
    }

    fn take_front(&mut self) -> (r: Option<(u64, &'iter Event)>)
        requires
            old(self).wf(),
        ensures
            final(self).wf(),
            final(self).reverse == old(self).reverse,
            step_front(old(self).window(), final(self).window(), r),
    {
        if self.min_idx_inclusive == self.max_idx_exclusive {
            None
        } else {
            let i = self.min_idx_inclusive;
            self.min_idx_inclusive = i + 1;
            proof {
                let w = self.log.records().subrange(i as int, self.max_idx_exclusive as int);
                assert(w.drop_first() =~= self.window());
            }
            Some((self.log.seqs[i], &self.log.events[i]))
        }
    }

    fn take_back(&mut self) -> (r: Option<(u64, &'iter Event)>)
        requires
            old(self).wf(),
        ensures
            final(self).wf(),
            final(self).reverse == old(self).reverse,
            step_back(old(self).window(), final(self).window(), r),
    {
        if self.min_idx_inclusive == self.max_idx_exclusive {
            None
        } else {
            let i = self.max_idx_exclusive - 1;
            self.max_idx_exclusive = i;
            proof {
                let w = self.log.records().subrange(self.min_idx_inclusive as int, i + 1);
                assert(w.drop_last() =~= self.window());
            }
            Some((self.log.seqs[i], &self.log.events[i]))
        }
    }

    /// Yields the next record of the scan.
    pub fn next(&mut self) -> (r: Option<(u64, &'iter Event)>)
        requires
            old(self).wf(),
        ensures
            final(self).wf(),
            step_front(old(self).remaining(), final(self).remaining(), r),
    {
        proof {
            lemma_reverse_ends(self.window());
        }
        if self.reverse {
            self.take_back()
        } else {
            self.take_front()
        }
    }

    /// Yields the last record of the scan that is still to come.
    pub fn next_back(&mut self) -> (r: Option<(u64, &'iter Event)>)
        requires
            old(self).wf(),
        ensures
            final(self).wf(),
            step_back(old(self).remaining(), final(self).remaining(), r),
    {
        proof {
            lemma_reverse_ends(self.window());
        }
        if self.reverse {
            self.take_front()
        } else {
            self.take_back()
        }
    }
}

} // verus!
