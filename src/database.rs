//! A write path that keeps indexes up to date with a table.
use vstd::prelude::*;

use crate::{Index, Table};

verus! {

/// A table and the indexes derived from it. Every write to the table is
/// followed by an update of each index to the table's new current seq.
pub struct SynchronousDatabase<T: Table, I: Index<Event = T::Event>> {
    base: T,
    dests: Vec<I>,
}

impl<T: Table, I: Index<Event = T::Event>> SynchronousDatabase<T, I> {
    /// Every index agrees with the table and is not ahead of it.
    pub closed spec fn wf(&self) -> bool {
        &&& self.base.wf()
        &&& forall|d: int|
            0 <= d < self.dests@.len() ==> (#[trigger] self.dests@[d]).consistent(
                self.base.records(),
            ) && self.dests@[d].watermark() <= self.base.current()
    }

    /// The table.
    pub closed spec fn base_view(&self) -> T {
        self.base
    }

    /// The indexes.
    pub closed spec fn dests_view(&self) -> Seq<I> {
        self.dests@
    }

    /// A database over `base`, driving `dests`.
    pub fn new(base: T, dests: Vec<I>) -> (r: Self)
        requires
            base.wf(),
            forall|d: int|
                0 <= d < dests@.len() ==> (#[trigger] dests@[d]).consistent(base.records())
                    && dests@[d].watermark() <= base.current(),
        ensures
            r.wf(),
            r.base_view() == base,
            r.dests_view() == dests@,
    {
        SynchronousDatabase { base, dests }
    }

    /// The table.
    pub fn base(&self) -> (r: &T)
        ensures
            *r == self.base_view(),
    {
        &self.base
    }

    /// The indexes.
    pub fn dests(&self) -> (r: &Vec<I>)
        ensures
            r@ == self.dests_view(),
    {
        &self.dests
    }

    /// Appends `events` to the table, then brings every index up to the
    /// table's new current seq.
    pub fn write(&mut self, events: Vec<T::Event>)
        requires
            old(self).wf(),
            old(self).base_view().current() + events@.len() <= u64::MAX,
        ensures
            final(self).wf(),
            final(self).base_view().records() == old(self).base_view().records() + Seq::new(
                events@.len(),
                |i: int| ((old(self).base_view().current() + 1 + i) as u64, events@[i]),
            ),
            final(self).base_view().current() == old(self).base_view().current() + events@.len(),
            final(self).dests_view().len() == old(self).dests_view().len(),
            forall|d: int|
                0 <= d < final(self).dests_view().len()
                    ==> (#[trigger] final(self).dests_view()[d]).watermark()
                    == final(self).base_view().current(),
    {
        let ghost old_recs = self.base.records();
        let ghost old_cur = self.base.current();
        let ghost evs = events@;
        let seqs = self.base.append(events);
        let ghost more = Seq::new(evs.len(), |i: int| (seqs@[i], evs[i]));
        proof {
            assert(more =~= Seq::new(
                evs.len(),
                |i: int| ((old_cur + 1 + i) as u64, evs[i]),
            ));
            assert forall|d: int| 0 <= d < self.dests@.len() implies (#[trigger] self.dests@[d]).consistent(
                self.base.records(),
            ) by {
                assert forall|i: int| 0 <= i < more.len() implies #[trigger] more[i].0
                    > self.dests@[d].watermark() by {}
                self.dests@[d].lemma_extend(old_recs, more);
            }
        }
        let seq = self.base.get_current_seq();
        let ghost recs = self.base.records();
        let mut i: usize = 0;
        while i < self.dests.len()
            invariant
                self.base.wf(),
                self.base.records() == recs,
                recs == old_recs + more,
                self.dests@.len() == old(self).dests@.len(),
                self.base.current() == seq,
                i <= self.dests@.len(),
                forall|d: int|
                    0 <= d < self.dests@.len() ==> (#[trigger] self.dests@[d]).consistent(
                        self.base.records(),
                    ) && self.dests@[d].watermark() <= seq,
                forall|d: int| 0 <= d < i ==> (#[trigger] self.dests@[d]).watermark() == seq,
            decreases self.dests@.len() - i,
        {
            self.dests[i].update(&self.base, seq);
            i = i + 1;
        }
    }
}

} // verus!
