//! A read-only view that merges several member views into one stream ordered
//! by `(seq, member index)`, with a vector clock of per-member watermarks.
use vstd::prelude::*;

use crate::merge::{
    first_in, last_in, lemma_first_in, lemma_last_in, lemma_merge_back, lemma_merge_bounds,
    lemma_merge_empty, lemma_merge_front, lemma_merge_sorted, lemma_merge_windows,
    lemma_sorted_after_front, members_sorted, merge, windows,
};
use crate::scan::{
    lemma_le_count, lemma_le_count_monotonic, lemma_reverse_ends, le_count, scan_spec,
    seqs_nondecreasing, step_back, step_front,
};
use crate::LogView;

verus! {

/// Several views read as one. Each member has an entry in the vector clock,
/// which only an explicit report from that member advances.
pub struct CompositeView<V: LogView> {
    views: Vec<V>,
    vector_clock: Vec<u64>,
}

/// A scan over a [`CompositeView`]: one cursor per member, all in the same
/// direction.
pub struct CompositeViewIterator<V: LogView> {
    reverse: bool,
    iterators: Vec<V::Cursor>,
}

/// The least entry of a vector clock, 0 for none.
pub open spec fn clock_min(s: Seq<u64>) -> u64
    decreases s.len(),
{
    if s.len() == 0 {
        0
    } else if s.len() == 1 {
        s[0]
    } else {
        let m = clock_min(s.drop_last());
        if s.last() < m {
            s.last()
        } else {
            m
        }
    }
}

/// Raising entries of a vector clock never lowers its least entry.
pub proof fn lemma_clock_min_monotonic(a: Seq<u64>, b: Seq<u64>)
    requires
        a.len() == b.len(),
        forall|i: int| 0 <= i < a.len() ==> #[trigger] a[i] <= b[i],
    ensures
        clock_min(a) <= clock_min(b),
    decreases a.len(),
{
    if a.len() > 1 {
        lemma_clock_min_monotonic(a.drop_last(), b.drop_last());
    }
}

/// Along a run of clocks in which each entry only rises, the least entry never
/// falls.
pub proof fn lemma_clock_runs_monotonic(clocks: Seq<Seq<u64>>)
    requires
        forall|t: int|
            0 <= t < clocks.len() - 1 ==> (#[trigger] clocks[t]).len() == clocks[t + 1].len(),
        forall|t: int, i: int|
            0 <= t < clocks.len() - 1 && 0 <= i < clocks[t].len() ==> #[trigger] clocks[t][i]
                <= clocks[t + 1][i],
    ensures
        forall|t: int| 0 <= t < clocks.len() ==> clock_min(clocks[0]) <= #[trigger] clock_min(clocks[t]),
    decreases clocks.len(),
{
    if clocks.len() > 1 {
        let init = clocks.drop_last();
        lemma_clock_runs_monotonic(init);
        let n = clocks.len() - 1;
        assert forall|i: int| 0 <= i < clocks[n - 1].len() implies #[trigger] clocks[n - 1][i]
            <= clocks[n][i] by {
            assert(clocks[n - 1][i] <= clocks[n - 1 + 1][i]);
        }
        lemma_clock_min_monotonic(clocks[n - 1], clocks[n]);
        assert forall|t: int| 0 <= t < clocks.len() implies clock_min(clocks[0]) <= #[trigger] clock_min(
            clocks[t],
        ) by {
            if t < n {
                assert(clocks[t] == init[t]);
            } else {
                assert(init[n - 1] == clocks[n - 1]);
            }
        }
    }
}

/// A member's remaining records in ascending order.
pub open spec fn ascending<E>(rem: Seq<(u64, E)>, reverse: bool) -> Seq<(u64, E)> {
    if reverse {
        rem.reverse()
    } else {
        rem
    }
}

impl<V: LogView> CompositeViewIterator<V> {
    /// One cursor per member, in member order.
    pub closed spec fn cursors(&self) -> Seq<V::Cursor> {
        self.iterators@
    }

    /// Whether the scan runs from high seqs to low ones.
    pub closed spec fn is_reverse(&self) -> bool {
        self.reverse
    }
}

impl<V: LogView> CompositeView<V> {
    /// The member views, in member order.
    pub closed spec fn members(&self) -> Seq<V> {
        self.views@
    }

    /// The vector clock, one entry per member.
    pub closed spec fn clock(&self) -> Seq<u64> {
        self.vector_clock@
    }

    /// The records of each member.
    pub open spec fn member_records(&self) -> Seq<Seq<(u64, V::Event)>> {
        Seq::new(self.members().len(), |i: int| self.members()[i].records())
    }

    /// What each member's cursor has still to yield, in ascending order.
    pub open spec fn cursor_members(&self, c: &CompositeViewIterator<V>) -> Seq<
        Seq<(u64, V::Event)>,
    > {
        Seq::new(
            self.members().len(),
            |i: int| ascending(self.members()[i].remaining(&c.cursors()[i]), c.is_reverse()),
        )
    }

    /// A composite over `views`, with every clock entry at 0.
    pub fn new(views: Vec<V>) -> (r: Self)
        requires
            forall|i: int| 0 <= i < views@.len() ==> (#[trigger] views@[i]).wf(),
        ensures
            r.wf(),
            r.members() == views@,
            r.clock() == Seq::new(views@.len(), |i: int| 0u64),
    {
        let mut vector_clock: Vec<u64> = Vec::new();
        let mut i: usize = 0;
        while i < views.len()
            invariant
                i <= views@.len(),
                vector_clock@ == Seq::new(i as nat, |j: int| 0u64),
            decreases views@.len() - i,
        {
            vector_clock.push(0);
            i = i + 1;
            assert(vector_clock@ =~= Seq::new(i as nat, |j: int| 0u64));
        }
        CompositeView { views, vector_clock }
    }

    /// Records that member `node_id` has reported `seq`: it will never again
    /// write at or below it.
    pub fn vector_clock_update(&mut self, node_id: usize, seq: u64)
        requires
            old(self).wf(),
            node_id < old(self).clock().len(),
            seq >= old(self).clock()[node_id as int],
        ensures
            final(self).wf(),
            final(self).members() == old(self).members(),
            final(self).clock() == old(self).clock().update(node_id as int, seq),
            final(self).current() >= old(self).current(),
    {
        self.vector_clock.set(node_id, seq);
        proof {
            lemma_clock_min_monotonic(old(self).vector_clock@, self.vector_clock@);
        }
    }

    /// The member views, to write to. The composite is well formed again once
    /// every member is and their number is unchanged.
    pub fn views_mut(&mut self) -> (r: &mut Vec<V>)
        ensures
            r@ == old(self).members(),
            final(self).members() == final(r)@,
            final(self).clock() == old(self).clock(),
    {
        &mut self.views
    }

    proof fn lemma_members_sorted(&self)
        requires
            self.wf(),
        ensures
            members_sorted(self.member_records()),
            forall|i: int, t: int|
                0 <= i < self.member_records().len() && 0 <= t < self.member_records()[i].len()
                    ==> #[trigger] self.member_records()[i][t].0 >= 1,
    {
        let ss = self.member_records();
        assert forall|i: int| 0 <= i < ss.len() implies seqs_nondecreasing(#[trigger] ss[i]) by {
            self.views@[i].lemma_records_sorted();
        }
        assert forall|i: int, t: int| 0 <= i < ss.len() && 0 <= t < ss[i].len() implies #[trigger] ss[i][t].0
            >= 1 by {
            self.views@[i].lemma_records_sorted();
        }
    }
}

impl<V: LogView> LogView for CompositeView<V> {
    type Event = V::Event;

    type Cursor = CompositeViewIterator<V>;

    open spec fn wf(&self) -> bool {
        &&& self.members().len() == self.clock().len()
        &&& forall|i: int| 0 <= i < self.members().len() ==> (#[trigger] self.members()[i]).wf()
    }

    open spec fn records(&self) -> Seq<(u64, V::Event)> {
        merge(self.member_records())
    }

    open spec fn current(&self) -> u64 {
        clock_min(self.clock())
    }

    open spec fn cursor_wf(&self, c: &CompositeViewIterator<V>) -> bool {
        &&& c.cursors().len() == self.members().len()
        &&& forall|i: int|
            0 <= i < self.members().len() ==> (#[trigger] self.members()[i]).cursor_wf(
                &c.cursors()[i],
            )
        &&& members_sorted(self.cursor_members(c))
    }

    open spec fn remaining(&self, c: &CompositeViewIterator<V>) -> Seq<(u64, V::Event)> {
        ascending(merge(self.cursor_members(c)), c.is_reverse())
    }

    proof fn lemma_records_sorted(&self) {
        self.lemma_members_sorted();
        lemma_merge_sorted(self.member_records());
        lemma_merge_bounds(self.member_records(), 1);
    }

    fn scan(&self, start_exclusive: u64, end_inclusive: u64) -> (c: CompositeViewIterator<V>) {
        let reverse = start_exclusive > end_inclusive;
        let ghost lo = if reverse {
            end_inclusive
        } else {
            start_exclusive
        };
        let ghost hi = if reverse {
            start_exclusive
        } else {
            end_inclusive
        };
        let ghost ss = self.member_records();
        let mut iterators: Vec<V::Cursor> = Vec::new();
        let mut i: usize = 0;
        while i < self.views.len()
            invariant
                self.wf(),
                ss == self.member_records(),
                i <= self.views@.len(),
                iterators@.len() == i,
                forall|t: int|
                    0 <= t < i ==> (#[trigger] self.views@[t]).cursor_wf(&iterators@[t])
                        && self.views@[t].remaining(&iterators@[t]) == scan_spec(
                        ss[t],
                        start_exclusive,
                        end_inclusive,
                    ),
            decreases self.views@.len() - i,
        {
            let it = self.views[i].scan(start_exclusive, end_inclusive);
            iterators.push(it);
            i = i + 1;
        }
        let c = CompositeViewIterator { reverse, iterators };
        proof {
            self.lemma_members_sorted();
            let w = windows(ss, lo, hi);
            assert(self.cursor_members(&c) =~= w) by {
                assert forall|t: int| 0 <= t < ss.len() implies #[trigger] self.cursor_members(
                    &c,
                )[t] == w[t] by {
                    assert(seqs_nondecreasing(ss[t]));
                    lemma_le_count_monotonic(ss[t], lo, hi);
                    lemma_le_count(ss[t], lo);
                    lemma_le_count(ss[t], hi);
                    let sub = ss[t].subrange(le_count(ss[t], lo), le_count(ss[t], hi));
                    assert(sub.reverse().reverse() =~= sub);
                }
            }
            assert(members_sorted(w)) by {
                assert forall|t: int| 0 <= t < w.len() implies seqs_nondecreasing(#[trigger] w[t]) by {
                    assert(seqs_nondecreasing(ss[t]));
                    lemma_le_count_monotonic(ss[t], lo, hi);
                    lemma_le_count(ss[t], lo);
                    lemma_le_count(ss[t], hi);
                    assert forall|x: int, y: int| 0 <= x <= y < w[t].len() implies w[t][x].0
                        <= w[t][y].0 by {
                        assert(w[t][x] == ss[t][le_count(ss[t], lo) + x]);
                        assert(w[t][y] == ss[t][le_count(ss[t], lo) + y]);
                    }
                }
            }
            lemma_merge_windows(ss, lo, hi);
        }
        c
    }

    fn next<'a>(&'a self, c: &mut CompositeViewIterator<V>) -> (r: Option<(u64, &'a V::Event)>) {
        proof {
            lemma_reverse_ends(merge(self.cursor_members(c)));
        }
        if c.reverse {
            self.take_last(c)
        } else {
            self.take_first(c)
        }
    }

    fn next_back<'a>(&'a self, c: &mut CompositeViewIterator<V>) -> (r: Option<
        (u64, &'a V::Event),
    >) {
        proof {
            lemma_reverse_ends(merge(self.cursor_members(c)));
        }
        if c.reverse {
            self.take_first(c)
        } else {
            self.take_last(c)
        }
    }

    fn peek(&self, c: &CompositeViewIterator<V>) -> (r: Option<u64>) {
        proof {
            lemma_reverse_ends(merge(self.cursor_members(c)));
        }
        if c.reverse {
            self.last_seq(c)
        } else {
            self.first_seq(c)
        }
    }

    fn peek_back(&self, c: &CompositeViewIterator<V>) -> (r: Option<u64>) {
        proof {
            lemma_reverse_ends(merge(self.cursor_members(c)));
        }
        if c.reverse {
            self.first_seq(c)
        } else {
            self.last_seq(c)
        }
    }

    fn get_current_seq(&self) -> (r: u64) {
        if self.vector_clock.len() == 0 {
            return 0;
        }
        let mut m = self.vector_clock[0];
        let mut i: usize = 1;
        proof {
            assert(self.vector_clock@.take(1) =~= seq![self.vector_clock@[0]]);
        }
        while i < self.vector_clock.len()
            invariant
                1 <= i <= self.vector_clock@.len(),
                m == clock_min(self.vector_clock@.take(i as int)),
            decreases self.vector_clock@.len() - i,
        {
            proof {
                assert(self.vector_clock@.take(i + 1).drop_last() =~= self.vector_clock@.take(
                    i as int,
                ));
            }
            if self.vector_clock[i] < m {
                m = self.vector_clock[i];
            }
            i = i + 1;
        }
        proof {
            assert(self.vector_clock@.take(i as int) =~= self.vector_clock@);
        }
        m
    }
}

impl<V: LogView> CompositeView<V> {
    /// The member whose next record in ascending order comes first.
    fn first_member(&self, c: &CompositeViewIterator<V>) -> (r: usize)
        requires
            self.wf(),
            self.cursor_wf(c),
        ensures
            r <= self.views@.len(),
            r == self.views@.len() <==> first_in(
                self.cursor_members(c),
                self.views@.len() as int,
            ) == -1,
            r < self.views@.len() ==> r == first_in(
                self.cursor_members(c),
                self.views@.len() as int,
            ),
    {
        let ghost ss = self.cursor_members(c);
        let n = self.views.len();
        let mut best: usize = n;
        let mut best_seq: u64 = 0;
        let mut i: usize = 0;
        while i < n
            invariant
                self.wf(),
                self.cursor_wf(c),
                ss == self.cursor_members(c),
                n == self.views@.len(),
                i <= n,
                best <= n,
                ss.len() == n,
                best == n <==> first_in(ss, i as int) == -1,
                best < n ==> best == first_in(ss, i as int) && best_seq == ss[best as int][0].0,
            decreases n - i,
        {
            proof {
                lemma_first_in(ss, i as int);
                lemma_reverse_ends(self.views@[i as int].remaining(&c.iterators@[i as int]));
            }
            let head = if c.reverse {
                self.views[i].peek_back(&c.iterators[i])
            } else {
                self.views[i].peek(&c.iterators[i])
            };
            assert(head == if ss[i as int].len() == 0 {
                None
            } else {
                Some(ss[i as int][0].0)
            });
            match head {
                Some(s) => {
                    if best == n || s < best_seq {
                        best = i;
                        best_seq = s;
                    }
                },
                None => {},
            }
            i = i + 1;
        }
        best
    }

    /// The member whose last record in ascending order comes last.
    fn last_member(&self, c: &CompositeViewIterator<V>) -> (r: usize)
        requires
            self.wf(),
            self.cursor_wf(c),
        ensures
            r <= self.views@.len(),
            r == self.views@.len() <==> last_in(
                self.cursor_members(c),
                self.views@.len() as int,
            ) == -1,
            r < self.views@.len() ==> r == last_in(
                self.cursor_members(c),
                self.views@.len() as int,
            ),
    {
        let ghost ss = self.cursor_members(c);
        let n = self.views.len();
        let mut best: usize = n;
        let mut best_seq: u64 = 0;
        let mut i: usize = 0;
        while i < n
            invariant
                self.wf(),
                self.cursor_wf(c),
                ss == self.cursor_members(c),
                n == self.views@.len(),
                i <= n,
                best <= n,
                ss.len() == n,
                best == n <==> last_in(ss, i as int) == -1,
                best < n ==> best == last_in(ss, i as int) && best_seq == ss[best as int].last().0,
            decreases n - i,
        {
            proof {
                lemma_last_in(ss, i as int);
                lemma_reverse_ends(self.views@[i as int].remaining(&c.iterators@[i as int]));
            }
            let tail = if c.reverse {
                self.views[i].peek(&c.iterators[i])
            } else {
                self.views[i].peek_back(&c.iterators[i])
            };
            assert(tail == if ss[i as int].len() == 0 {
                None
            } else {
                Some(ss[i as int].last().0)
            });
            match tail {
                Some(s) => {
                    if best == n || s >= best_seq {
                        best = i;
                        best_seq = s;
                    }
                },
                None => {},
            }
            i = i + 1;
        }
        best
    }

    /// The seq of the first record of the ascending merge.
    fn first_seq(&self, c: &CompositeViewIterator<V>) -> (r: Option<u64>)
        requires
            self.wf(),
            self.cursor_wf(c),
        ensures
            r == if merge(self.cursor_members(c)).len() == 0 {
                None
            } else {
                Some(merge(self.cursor_members(c))[0].0)
            },
    {
        let ghost ss = self.cursor_members(c);
        let i = self.first_member(c);
        proof {
            lemma_first_in(ss, ss.len() as int);
        }
        if i == self.views.len() {
            proof {
                lemma_merge_empty(ss);
            }
            None
        } else {
            proof {
                lemma_merge_front(ss, i as int);
                lemma_reverse_ends(self.views@[i as int].remaining(&c.iterators@[i as int]));
            }
            if c.reverse {
                self.views[i].peek_back(&c.iterators[i])
            } else {
                self.views[i].peek(&c.iterators[i])
            }
        }
    }

    /// The seq of the last record of the ascending merge.
    fn last_seq(&self, c: &CompositeViewIterator<V>) -> (r: Option<u64>)
        requires
            self.wf(),
            self.cursor_wf(c),
        ensures
            r == if merge(self.cursor_members(c)).len() == 0 {
                None
            } else {
                Some(merge(self.cursor_members(c)).last().0)
            },
    {
        let ghost ss = self.cursor_members(c);
        let i = self.last_member(c);
        proof {
            lemma_last_in(ss, ss.len() as int);
        }
        if i == self.views.len() {
            proof {
                lemma_merge_empty(ss);
            }
            None
        } else {
            proof {
                lemma_merge_back(ss, i as int);
                lemma_reverse_ends(self.views@[i as int].remaining(&c.iterators@[i as int]));
            }
            if c.reverse {
                self.views[i].peek(&c.iterators[i])
            } else {
                self.views[i].peek_back(&c.iterators[i])
            }
        }
    }

    /// Takes the first record of the ascending merge.
    fn take_first<'a>(&'a self, c: &mut CompositeViewIterator<V>) -> (r: Option<
        (u64, &'a V::Event),
    >)
        requires
            self.wf(),
            self.cursor_wf(old(c)),
        ensures
            self.cursor_wf(final(c)),
            final(c).reverse == old(c).reverse,
            step_front(
                merge(self.cursor_members(old(c))),
                merge(self.cursor_members(final(c))),
                r,
            ),
    {
        let ghost ss = self.cursor_members(c);
        let i = self.first_member(c);
        proof {
            lemma_first_in(ss, ss.len() as int);
        }
        if i == self.views.len() {
            proof {
                lemma_merge_empty(ss);
            }
            return None;
        }
        proof {
            lemma_merge_front(ss, i as int);
            lemma_sorted_after_front(ss, i as int);
            lemma_reverse_ends(self.views@[i as int].remaining(&c.iterators@[i as int]));
        }
        let r = if c.reverse {
            self.views[i].next_back(&mut c.iterators[i])
        } else {
            self.views[i].next(&mut c.iterators[i])
        };
        proof {
            assert(self.cursor_members(c) =~= ss.update(i as int, ss[i as int].drop_first()));
            assert(merge(ss).drop_first() =~= merge(ss.update(i as int, ss[i as int].drop_first())));
        }
        r
    }

    /// Takes the last record of the ascending merge.
    fn take_last<'a>(&'a self, c: &mut CompositeViewIterator<V>) -> (r: Option<
        (u64, &'a V::Event),
    >)
        requires
            self.wf(),
            self.cursor_wf(old(c)),
        ensures
            self.cursor_wf(final(c)),
            final(c).reverse == old(c).reverse,
            step_back(
                merge(self.cursor_members(old(c))),
                merge(self.cursor_members(final(c))),
                r,
            ),
    {
        let ghost ss = self.cursor_members(c);
        let i = self.last_member(c);
        proof {
            lemma_last_in(ss, ss.len() as int);
        }
        if i == self.views.len() {
            proof {
                lemma_merge_empty(ss);
            }
            return None;
        }
        proof {
            lemma_merge_back(ss, i as int);
            lemma_sorted_after_front(ss, i as int);
            lemma_reverse_ends(self.views@[i as int].remaining(&c.iterators@[i as int]));
        }
        let r = if c.reverse {
            self.views[i].next(&mut c.iterators[i])
        } else {
            self.views[i].next_back(&mut c.iterators[i])
        };
        proof {
            assert(self.cursor_members(c) =~= ss.update(i as int, ss[i as int].drop_last()));
            assert(merge(ss).drop_last() =~= merge(ss.update(i as int, ss[i as int].drop_last())));
        }
        r
    }
}

} // verus!
