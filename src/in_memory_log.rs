//! A log written one event at a time, read through a borrowing iterator over
//! its events.
use vstd::prelude::*;

use crate::scan::{
    event_step_back, event_step_front, le_count, lemma_le_count_unique, partition_point,
    seqs_nondecreasing, seqs_positive,
};

verus! {

/// An in-memory log. Each event gets the seq after the last one, starting at 1.
pub struct InMemoryLog<Event> {
    seqs: Vec<u64>,
    events: Vec<Event>,
}

/// The events of an [`InMemoryLog`] in a range of seqs, from either end.
pub struct InMemoryLogIterator<'a, Event> {
    log: &'a InMemoryLog<Event>,
    next: usize,
    next_back: usize,
}

impl<Event> InMemoryLog<Event> {
    /// Seqs strictly increase from 1 and pair up with the events.
    pub closed spec fn wf(&self) -> bool {
        &&& self.seqs@.len() == self.events@.len()
        &&& forall|i: int, j: int|
            0 <= i < j < self.seqs@.len() ==> self.seqs@[i] < self.seqs@[j]
        &&& forall|i: int| 0 <= i < self.seqs@.len() ==> #[trigger] self.seqs@[i] >= 1
    }

    /// The `(seq, event)` records, in the order written.
    pub closed spec fn records(&self) -> Seq<(u64, Event)> {
        Seq::new(self.seqs@.len(), |i: int| (self.seqs@[i], self.events@[i]))
    }

    /// The seq of the last record, 0 when there is none.
    pub open spec fn last_seq(&self) -> u64 {
        if self.records().len() == 0 {
            0
        } else {
            self.records().last().0
        }
    }

    /// The records are sorted by seq, every seq is a real one, and none lies
    /// above the last.
    pub proof fn lemma_records_sorted(&self)
        requires
            self.wf(),
        ensures
            seqs_nondecreasing(self.records()),
            seqs_positive(self.records()),
            forall|i: int|
                0 <= i < self.records().len() ==> #[trigger] self.records()[i].0 <= self.last_seq(),
    {
        let recs = self.records();
        assert forall|i: int, j: int| 0 <= i <= j < recs.len() implies recs[i].0 <= recs[j].0 by {
            if i < j {
                assert(self.seqs@[i] < self.seqs@[j]);
            }
        }
        assert forall|i: int| 0 <= i < recs.len() implies #[trigger] recs[i].0 <= self.last_seq() by {
            if i < recs.len() - 1 {
                assert(self.seqs@[i] < self.seqs@[recs.len() - 1]);
            }
        }
    }

    /// An empty log.
    pub fn new() -> (r: Self)
        ensures
            r.wf(),
            r.records() == Seq::<(u64, Event)>::empty(),
    {
        InMemoryLog { seqs: Vec::new(), events: Vec::new() }
    }

    /// Appends `event` with the seq after the last one and returns that seq.
    pub fn write(&mut self, event: Event) -> (r: u64)
        requires
            old(self).wf(),
            old(self).last_seq() < u64::MAX,
        ensures
            final(self).wf(),
            r == old(self).last_seq() + 1,
            final(self).records() == old(self).records().push((r, event)),
    {
        let n = self.seqs.len();
        let next_seq = if n == 0 {
            1
        } else {
            self.seqs[n - 1] + 1
        };
        self.seqs.push(next_seq);
        self.events.push(event);
        proof {
            assert forall|i: int, j: int| 0 <= i < j < self.seqs@.len() implies self.seqs@[i]
                < self.seqs@[j] by {
                if j == n && i < n - 1 {
                    assert(old(self).seqs@[i] < old(self).seqs@[n - 1]);
                }
            }
            assert(self.records() =~= old(self).records().push((next_seq, event)));
        }
        next_seq
    }

    /// The events with `min_seq_exclusive < seq <= max_seq_inclusive`, in
    /// ascending order from the front and descending from the back.
    pub fn iter<'a>(&'a self, min_seq_exclusive: u64, max_seq_inclusive: u64) -> (r:
        InMemoryLogIterator<'a, Event>)
        requires
            self.wf(),
        ensures
            r.wf(),
            r.log_view() == *self,
            r.remaining() == if min_seq_exclusive <= max_seq_inclusive {
                self.records().subrange(
                    le_count(self.records(), min_seq_exclusive),
                    le_count(self.records(), max_seq_inclusive),
                ).map_values(|rec: (u64, Event)| rec.1)
            } else {
                Seq::empty()
            },
    {
        let next = partition_point(&self.seqs, min_seq_exclusive);
        let next_back = partition_point(&self.seqs, max_seq_inclusive);
        let r = InMemoryLogIterator { log: self, next, next_back };
        proof {
            let recs = self.records();
            self.lemma_cut(recs, min_seq_exclusive, next);
            self.lemma_cut(recs, max_seq_inclusive, next_back);
            if min_seq_exclusive <= max_seq_inclusive {
                if next > next_back {
                    assert(self.seqs@[next_back as int] <= min_seq_exclusive);
                }
                assert(r.remaining() =~= recs.subrange(next as int, next_back as int).map_values(
                    |rec: (u64, Event)| rec.1,
                ));
            } else if next < next_back {
                assert(self.seqs@[next as int] <= max_seq_inclusive);
            }
        }
        r
    }

    proof fn lemma_cut(&self, recs: Seq<(u64, Event)>, s: u64, k: usize)
        requires
            self.wf(),
            recs == self.records(),
            k <= self.seqs@.len(),
            forall|j: int| 0 <= j < k ==> #[trigger] self.seqs@[j] <= s,
            forall|j: int| k <= j < self.seqs@.len() ==> #[trigger] self.seqs@[j] > s,
        ensures
            le_count(recs, s) == k,
    {
        assert(seqs_nondecreasing(recs)) by {
            assert forall|i: int, j: int| 0 <= i <= j < recs.len() implies recs[i].0
                <= recs[j].0 by {
                if i < j {
                    assert(self.seqs@[i] < self.seqs@[j]);
                }
            }
        }
        assert forall|j: int| 0 <= j < k implies #[trigger] recs[j].0 <= s by {
            assert(self.seqs@[j] <= s);
        }
        assert forall|j: int| k <= j < recs.len() implies #[trigger] recs[j].0 > s by {
            assert(self.seqs@[j] > s);
        }
        lemma_le_count_unique(recs, s, k as int);
    }
}

impl<'a, Event> InMemoryLogIterator<'a, Event> {
    /// The iterator's window lies within its log.
    pub closed spec fn wf(&self) -> bool {
        &&& self.log.wf()
        &&& self.next <= self.log.seqs@.len()
        &&& self.next_back <= self.log.seqs@.len()
    }

    /// The log iterated over.
    pub closed spec fn log_view(&self) -> InMemoryLog<Event> {
        *self.log
    }

    /// The events still to come, in ascending order.
    pub closed spec fn remaining(&self) -> Seq<Event> {
        if self.next < self.next_back {
            self.log.events@.subrange(self.next as int, self.next_back as int)
        } else {
            Seq::empty()
        }
    }

    /// The next event in ascending order.
    pub fn next(&mut self) -> (r: Option<&'a Event>)
        requires
            old(self).wf(),
        ensures
            final(self).wf(),
            event_step_front(old(self).remaining(), final(self).remaining(), r),
    {
        if self.next == self.log.seqs.len() || self.next >= self.next_back {
            None
        } else {
            let i = self.next;
            self.next = i + 1;
            proof {
                let w = self.log.events@.subrange(i as int, self.next_back as int);
                assert(w.drop_first() =~= self.remaining());
            }
            Some(&self.log.events[i])
        }
    }

    /// The next event in descending order.
    pub fn next_back(&mut self) -> (r: Option<&'a Event>)
        requires
            old(self).wf(),
        ensures
            final(self).wf(),
            event_step_back(old(self).remaining(), final(self).remaining(), r),
    {
        if self.next_back == 0 || self.next >= self.next_back {
            None
        } else {
            let i = self.next_back - 1;
            self.next_back = i;
            proof {
                let w = self.log.events@.subrange(self.next as int, i + 1);
                assert(w.drop_last() =~= self.remaining());
            }
            Some(&self.log.events[i])
        }
    }
}

} // verus!
