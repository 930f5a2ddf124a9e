//! What a range scan over sequence-ordered records yields.
use vstd::prelude::*;

verus! {

/// Seqs never decrease along the records.
pub open spec fn seqs_nondecreasing<E>(recs: Seq<(u64, E)>) -> bool {
    forall|i: int, j: int| 0 <= i <= j < recs.len() ==> recs[i].0 <= recs[j].0
}

/// Every seq is a real one: seq 0 stands for "before any event".
pub open spec fn seqs_positive<E>(recs: Seq<(u64, E)>) -> bool {
    forall|i: int| 0 <= i < recs.len() ==> #[trigger] recs[i].0 >= 1
}

/// How many leading records have a seq of at most `s` (for sorted records, all
/// of those that do).
pub open spec fn le_count<E>(recs: Seq<(u64, E)>, s: u64) -> int
    decreases recs.len(),
{
    if recs.len() == 0 {
        0
    } else if recs.last().0 <= s {
        recs.len() as int
    } else {
        le_count(recs.drop_last(), s)
    }
}

/// The records that `scan(a, b)` yields, in the order it yields them.
pub open spec fn scan_spec<E>(recs: Seq<(u64, E)>, a: u64, b: u64) -> Seq<(u64, E)> {
    if a <= b {
        recs.subrange(le_count(recs, a), le_count(recs, b))
    } else {
        recs.subrange(le_count(recs, b), le_count(recs, a)).reverse()
    }
}

/// The position of the first seq above `s` in a strictly increasing vector.
pub(crate) fn partition_point(seqs: &Vec<u64>, s: u64) -> (r: usize)
    requires
        forall|i: int, j: int| 0 <= i < j < seqs@.len() ==> seqs@[i] < seqs@[j],
    ensures
        r <= seqs@.len(),
        forall|j: int| 0 <= j < r ==> #[trigger] seqs@[j] <= s,
        forall|j: int| r <= j < seqs@.len() ==> #[trigger] seqs@[j] > s,
{
    let mut lo: usize = 0;
    let mut hi: usize = seqs.len();
    while lo < hi
        invariant
            lo <= hi <= seqs@.len(),
            forall|i: int, j: int| 0 <= i < j < seqs@.len() ==> seqs@[i] < seqs@[j],
            forall|j: int| 0 <= j < lo ==> #[trigger] seqs@[j] <= s,
            forall|j: int| hi <= j < seqs@.len() ==> #[trigger] seqs@[j] > s,
        decreases hi - lo,
    {
        let mid = lo + (hi - lo) / 2;
        if seqs[mid] <= s {
            lo = mid + 1;
        } else {
            hi = mid;
        }
    }
    lo
}

/// One step from the front: `r` is the first of `before` and `after` the rest,
/// or both are empty and `r` is `None`.
pub open spec fn step_front<E>(
    before: Seq<(u64, E)>,
    after: Seq<(u64, E)>,
    r: Option<(u64, &E)>,
) -> bool {
    match r {
        None => before.len() == 0 && after == before,
        Some(p) => before.len() > 0 && p.0 == before[0].0 && *p.1 == before[0].1 && after
            == before.drop_first(),
    }
}

/// One step from the back: `r` is the last of `before` and `after` the rest,
/// or both are empty and `r` is `None`.
pub open spec fn step_back<E>(
    before: Seq<(u64, E)>,
    after: Seq<(u64, E)>,
    r: Option<(u64, &E)>,
) -> bool {
    match r {
        None => before.len() == 0 && after == before,
        Some(p) => before.len() > 0 && p.0 == before.last().0 && *p.1 == before.last().1
            && after == before.drop_last(),
    }
}

/// Reversal swaps the two ends of a sequence.
pub proof fn lemma_reverse_ends<A>(w: Seq<A>)
    ensures
        w.reverse().len() == w.len(),
        w.len() == 0 ==> w.reverse() == w,
        w.len() > 0 ==> w.reverse()[0] == w.last() && w.reverse().last() == w[0]
            && w.reverse().drop_first() == w.drop_last().reverse() && w.reverse().drop_last()
            == w.drop_first().reverse(),
{
    if w.len() > 0 {
        assert(w.reverse().drop_first() =~= w.drop_last().reverse());
        assert(w.reverse().drop_last() =~= w.drop_first().reverse());
    } else {
        assert(w.reverse() =~= w);
    }
}

/// On sorted records `le_count` is the partition point of `seq <= s`.
pub proof fn lemma_le_count<E>(recs: Seq<(u64, E)>, s: u64)
    requires
        seqs_nondecreasing(recs),
    ensures
        0 <= le_count(recs, s) <= recs.len(),
        forall|j: int| 0 <= j < le_count(recs, s) ==> #[trigger] recs[j].0 <= s,
        forall|j: int| le_count(recs, s) <= j < recs.len() ==> #[trigger] recs[j].0 > s,
    decreases recs.len(),
{
    if recs.len() > 0 {
        let d = recs.drop_last();
        assert(seqs_nondecreasing(d));
        lemma_le_count(d, s);
        if recs.last().0 > s {
            assert forall|j: int| le_count(recs, s) <= j < recs.len() implies #[trigger] recs[j].0
                > s by {
                if j < d.len() {
                    assert(d[j] == recs[j]);
                }
            }
            assert forall|j: int| 0 <= j < le_count(recs, s) implies #[trigger] recs[j].0
                <= s by {
                assert(d[j] == recs[j]);
            }
        }
    }
}

/// Any partition point of `seq <= s` is `le_count`.
pub proof fn lemma_le_count_unique<E>(recs: Seq<(u64, E)>, s: u64, k: int)
    requires
        seqs_nondecreasing(recs),
        0 <= k <= recs.len(),
        forall|j: int| 0 <= j < k ==> #[trigger] recs[j].0 <= s,
        forall|j: int| k <= j < recs.len() ==> #[trigger] recs[j].0 > s,
    ensures
        le_count(recs, s) == k,
{
    lemma_le_count(recs, s);
    let c = le_count(recs, s);
    if c < k {
        assert(recs[c].0 <= s);
    } else if k < c {
        assert(recs[k].0 > s);
    }
}

/// `le_count` grows with its bound.
pub proof fn lemma_le_count_monotonic<E>(recs: Seq<(u64, E)>, a: u64, b: u64)
    requires
        seqs_nondecreasing(recs),
        a <= b,
    ensures
        le_count(recs, a) <= le_count(recs, b),
{
    lemma_le_count(recs, a);
    lemma_le_count(recs, b);
    if le_count(recs, b) < le_count(recs, a) {
        let j = le_count(recs, b);
        assert(recs[j].0 <= a);
        assert(recs[j].0 > b);
    }
}

/// One step from the front of a run of events: `r` is the first of `before`
/// and `after` the rest, or both are empty and `r` is `None`.
pub open spec fn event_step_front<E>(before: Seq<E>, after: Seq<E>, r: Option<&E>) -> bool {
    match r {
        None => before.len() == 0 && after == before,
        Some(e) => before.len() > 0 && *e == before[0] && after == before.drop_first(),
    }
}

/// One step from the back of a run of events.
pub open spec fn event_step_back<E>(before: Seq<E>, after: Seq<E>, r: Option<&E>) -> bool {
    match r {
        None => before.len() == 0 && after == before,
        Some(e) => before.len() > 0 && *e == before.last() && after == before.drop_last(),
    }
}

} // verus!
