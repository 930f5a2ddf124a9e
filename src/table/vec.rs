//! A table held in two parallel vectors: sorted seqs and their events.
use vstd::prelude::*;

use crate::scan::{
    le_count, lemma_le_count_monotonic, lemma_le_count_unique, lemma_reverse_ends,
    partition_point, step_back, step_front,
};
use crate::{LogView, Table};

verus! {

/// An in-memory table. Seqs are assigned by the table itself, strictly
/// increasing, and never above `current_seq`.
pub struct VecTable<Event> {
    current_seq: u64,
    seqs: Vec<u64>,
    events: Vec<Event>,
}

/// A scan over a [`VecTable`]: the half-open window of positions still to be
/// yielded, and its direction.
pub struct VecTableIterator {
    reverse: bool,
    min_idx_inclusive: usize,
    max_idx_exclusive: usize,
}

impl<Event> VecTable<Event> {
    /// An empty table whose current seq is 0.
    pub fn new() -> (r: Self)
        ensures
            r.wf(),
            r.records() == Seq::<(u64, Event)>::empty(),
            r.current() == 0,
    {
        VecTable { current_seq: 0, seqs: Vec::new(), events: Vec::new() }
    }

    /// No record lies above the current seq.
    pub proof fn lemma_records_bounded(&self)
        requires
            self.wf(),
        ensures
            forall|i: int| 0 <= i < self.records().len() ==> #[trigger] self.records()[i].0 <= self.current(),
    {
    }

    proof fn lemma_index(&self, recs: Seq<(u64, Event)>, s: u64, k: usize)
        requires
            self.wf(),
            recs == self.records(),
            k <= self.seqs@.len(),
            forall|j: int| 0 <= j < k ==> #[trigger] self.seqs@[j] <= s,
            forall|j: int| k <= j < self.seqs@.len() ==> #[trigger] self.seqs@[j] > s,
        ensures
            le_count(recs, s) == k,
    {
        assert forall|j: int| 0 <= j < k implies #[trigger] recs[j].0 <= s by {
            assert(self.seqs@[j] <= s);
        }
        assert forall|j: int| k <= j < recs.len() implies #[trigger] recs[j].0 > s by {
            assert(self.seqs@[j] > s);
        }
        lemma_le_count_unique(recs, s, k as int);
    }
}

impl<Event> LogView for VecTable<Event> {
    type Event = Event;

    type Cursor = VecTableIterator;

    closed spec fn wf(&self) -> bool {
        &&& self.seqs@.len() == self.events@.len()
        &&& forall|i: int, j: int|
            0 <= i < j < self.seqs@.len() ==> self.seqs@[i] < self.seqs@[j]
        &&& forall|i: int| 0 <= i < self.seqs@.len() ==> #[trigger] self.seqs@[i] <= self.current_seq
        &&& forall|i: int| 0 <= i < self.seqs@.len() ==> #[trigger] self.seqs@[i] >= 1
    }

    closed spec fn records(&self) -> Seq<(u64, Event)> {
        Seq::new(self.seqs@.len(), |i: int| (self.seqs@[i], self.events@[i]))
    }

    closed spec fn current(&self) -> u64 {
        self.current_seq
    }

    closed spec fn cursor_wf(&self, c: &VecTableIterator) -> bool {
        c.min_idx_inclusive <= c.max_idx_exclusive <= self.seqs@.len()
    }

    closed spec fn remaining(&self, c: &VecTableIterator) -> Seq<(u64, Event)> {
        let w = self.records().subrange(c.min_idx_inclusive as int, c.max_idx_exclusive as int);
        if c.reverse {
            w.reverse()
        } else {
            w
        }
    }

    proof fn lemma_records_sorted(&self) {
    }

    fn scan(&self, start_exclusive: u64, end_inclusive: u64) -> (c: VecTableIterator) {
        let reverse = start_exclusive > end_inclusive;
        let (min, max) = if reverse {
            (end_inclusive, start_exclusive)
        } else {
            (start_exclusive, end_inclusive)
        };
        let min_idx = partition_point(&self.seqs, min);
        let max_idx = partition_point(&self.seqs, max);
        proof {
            let recs = self.records();
            self.lemma_index(recs, min, min_idx);
            self.lemma_index(recs, max, max_idx);
            lemma_le_count_monotonic(recs, min, max);
        }
        VecTableIterator { reverse, min_idx_inclusive: min_idx, max_idx_exclusive: max_idx }
    }

    fn next<'a>(&'a self, c: &mut VecTableIterator) -> (r: Option<(u64, &'a Event)>) {
        proof {
            lemma_reverse_ends(
                self.records().subrange(c.min_idx_inclusive as int, c.max_idx_exclusive as int),
            );
        }
        if c.reverse {
            self.take_back(c)
        } else {
            self.take_front(c)
        }
    }

    fn next_back<'a>(&'a self, c: &mut VecTableIterator) -> (r: Option<(u64, &'a Event)>) {
        proof {
            lemma_reverse_ends(
                self.records().subrange(c.min_idx_inclusive as int, c.max_idx_exclusive as int),
            );
        }
        if c.reverse {
            self.take_front(c)
        } else {
            self.take_back(c)
        }
    }

    fn peek(&self, c: &VecTableIterator) -> (r: Option<u64>) {
        proof {
            lemma_reverse_ends(
                self.records().subrange(c.min_idx_inclusive as int, c.max_idx_exclusive as int),
            );
        }
        if c.min_idx_inclusive == c.max_idx_exclusive {
            None
        } else if c.reverse {
            Some(self.seqs[c.max_idx_exclusive - 1])
        } else {
            Some(self.seqs[c.min_idx_inclusive])
        }
    }

    fn peek_back(&self, c: &VecTableIterator) -> (r: Option<u64>) {
        proof {
            lemma_reverse_ends(
                self.records().subrange(c.min_idx_inclusive as int, c.max_idx_exclusive as int),
            );
        }
        if c.min_idx_inclusive == c.max_idx_exclusive {
            None
        } else if c.reverse {
            Some(self.seqs[c.min_idx_inclusive])
        } else {
            Some(self.seqs[c.max_idx_exclusive - 1])
        }
    }

    fn get_current_seq(&self) -> (r: u64) {
        self.current_seq
    }
}

impl<Event> Table for VecTable<Event> {
    fn append(&mut self, events: Vec<Event>) -> (r: Vec<u64>) {
        let mut events = events;
        let ghost old_recs = self.records();
        let ghost evs = events@;
        let start = self.current_seq;
        let mut result: Vec<u64> = Vec::new();
        let mut i: usize = 0;
        while i < events.len()
            invariant
                forall|a: int, b: int|
                    0 <= a < b < self.seqs@.len() ==> self.seqs@[a] < self.seqs@[b],
                forall|a: int|
                    0 <= a < self.seqs@.len() ==> #[trigger] self.seqs@[a] <= self.current_seq,
                forall|a: int| 0 <= a < self.seqs@.len() ==> #[trigger] self.seqs@[a] >= 1,
                old(self).wf(),
                self.events@ == old(self).events@,
                events@ == evs,
                start == old(self).current_seq,
                start + evs.len() <= u64::MAX,
                i <= evs.len(),
                self.current_seq == start + i,
                self.seqs@.len() == old(self).seqs@.len() + i,
                self.seqs@.subrange(0, old(self).seqs@.len() as int) == old(self).seqs@,
                result@.len() == i,
                forall|j: int| 0 <= j < i ==> #[trigger] result@[j] == start + 1 + j,
                forall|j: int|
                    old(self).seqs@.len() <= j < self.seqs@.len() ==> #[trigger] self.seqs@[j]
                        == start + 1 + (j - old(self).seqs@.len()),
            decreases evs.len() - i,
        {
            let seq = self.current_seq + 1;
            proof {
                assert forall|a: int| 0 <= a < self.seqs@.len() implies #[trigger] self.seqs@[a]
                    < seq by {}
            }
            self.current_seq = seq;
            result.push(seq);
            self.seqs.push(seq);
            i = i + 1;
            proof {
                assert(self.seqs@.subrange(0, old(self).seqs@.len() as int) =~= old(
                    self,
                ).seqs@);
                assert forall|a: int, b: int|
                    0 <= a < b < self.seqs@.len() implies self.seqs@[a] < self.seqs@[b] by {
                    if b == self.seqs@.len() - 1 {
                        assert(self.seqs@[a] <= self.current_seq - 1);
                    }
                }
            }
        }
        self.events.append(&mut events);
        proof {
            let n = old(self).seqs@.len();
            assert(self.seqs@.len() == self.events@.len());
            assert forall|a: int, b: int|
                0 <= a < b < self.seqs@.len() implies self.seqs@[a] < self.seqs@[b] by {
                if a < n {
                    assert(self.seqs@[a] == old(self).seqs@[a]);
                    assert(self.seqs@[a] <= start);
                }
            }
            assert forall|a: int| 0 <= a < self.seqs@.len() implies #[trigger] self.seqs@[a]
                <= self.current_seq by {
                if a < n {
                    assert(self.seqs@[a] == old(self).seqs@[a]);
                }
            }
            assert(self.records() =~= old_recs + Seq::new(
                evs.len(),
                |j: int| (result@[j], evs[j]),
            ));
        }
        result
    }

    fn set_current_seq(&mut self, seq: u64) {
        if seq > self.current_seq {
            self.current_seq = seq;
        }
    }
}

impl<Event> VecTable<Event> {
    /// Takes the lowest position of the window.
    fn take_front<'a>(&'a self, c: &mut VecTableIterator) -> (r: Option<(u64, &'a Event)>)
        requires
            self.wf(),
            self.cursor_wf(old(c)),
        ensures
            self.cursor_wf(final(c)),
            final(c).reverse == old(c).reverse,
            step_front(
                self.records().subrange(
                    old(c).min_idx_inclusive as int,
                    old(c).max_idx_exclusive as int,
                ),
                self.records().subrange(
                    final(c).min_idx_inclusive as int,
                    final(c).max_idx_exclusive as int,
                ),
                r,
            ),
    {
        if c.min_idx_inclusive == c.max_idx_exclusive {
            None
        } else {
            let i = c.min_idx_inclusive;
            c.min_idx_inclusive = i + 1;
            proof {
                let w = self.records().subrange(i as int, c.max_idx_exclusive as int);
                assert(w.drop_first() =~= self.records().subrange(
                    i + 1,
                    c.max_idx_exclusive as int,
                ));
            }
            Some((self.seqs[i], &self.events[i]))
        }
    }

    /// Takes the highest position of the window.
    fn take_back<'a>(&'a self, c: &mut VecTableIterator) -> (r: Option<(u64, &'a Event)>)
        requires
            self.wf(),
            self.cursor_wf(old(c)),
        ensures
            self.cursor_wf(final(c)),
            final(c).reverse == old(c).reverse,
            step_back(
                self.records().subrange(
                    old(c).min_idx_inclusive as int,
                    old(c).max_idx_exclusive as int,
                ),
                self.records().subrange(
                    final(c).min_idx_inclusive as int,
                    final(c).max_idx_exclusive as int,
                ),
                r,
            ),
    {
        if c.min_idx_inclusive == c.max_idx_exclusive {
            None
        } else {
            let i = c.max_idx_exclusive - 1;
            c.max_idx_exclusive = i;
            proof {
                let w = self.records().subrange(c.min_idx_inclusive as int, i + 1);
                assert(w.drop_last() =~= self.records().subrange(
                    c.min_idx_inclusive as int,
                    i as int,
                ));
            }
            Some((self.seqs[i], &self.events[i]))
        }
    }
}

} // verus!
