//! Laws that relate scans, updates and queries.
use vstd::prelude::*;

use crate::merge::{
    first_in, head_before, last_in, lemma_first_in, lemma_last_in, lemma_merge_back,
    lemma_merge_front, lemma_sorted_after_front, tail_after,
    lemma_total_update, members_sorted, merge, total,
};
use crate::scan::{
    le_count, lemma_le_count, lemma_le_count_monotonic, scan_spec, seqs_nondecreasing,
};
use crate::update::{
    lemma_ops_effect_concat, lemma_recs_effect_concat, lemma_recs_step_back, lemma_replay_lookup,
    ops_effect, recs_effect, state_at, Projection, UpdateOp,
};

verus! {

/// A forward scan over `(a, b]` yields exactly the records with
/// `a < seq <= b`, as one run in the order they are held; the scan with the
/// bounds swapped yields the same run in reverse.
pub proof fn lemma_scan_range<E>(recs: Seq<(u64, E)>, a: u64, b: u64)
    requires
        seqs_nondecreasing(recs),
        a <= b,
    ensures
        0 <= le_count(recs, a) <= le_count(recs, b) <= recs.len(),
        scan_spec(recs, a, b) == recs.subrange(le_count(recs, a), le_count(recs, b)),
        forall|i: int|
            0 <= i < recs.len() ==> (le_count(recs, a) <= i < le_count(recs, b) <==> a
                < #[trigger] recs[i].0 <= b),
        seqs_nondecreasing(scan_spec(recs, a, b)),
        scan_spec(recs, b, a) == scan_spec(recs, a, b).reverse(),
{
    lemma_le_count(recs, a);
    lemma_le_count(recs, b);
    if le_count(recs, b) < le_count(recs, a) {
        let j = le_count(recs, b);
        assert(recs[j].0 <= a);
    }
    lemma_reverse_symmetry(recs, a, b);
}

/// The scan with its bounds swapped yields the same records in reverse order.
pub proof fn lemma_reverse_symmetry<E>(recs: Seq<(u64, E)>, a: u64, b: u64)
    requires
        seqs_nondecreasing(recs),
    ensures
        scan_spec(recs, b, a) == scan_spec(recs, a, b).reverse(),
{
    lemma_le_count(recs, a);
    lemma_le_count(recs, b);
    if a < b {
    } else if a > b {
        lemma_le_count_monotonic(recs, b, a);
        let w = recs.subrange(le_count(recs, b), le_count(recs, a));
        assert(w.reverse().reverse() =~= w);
    } else {
        assert(scan_spec(recs, a, b).len() == 0);
        assert(scan_spec(recs, a, b).reverse() =~= scan_spec(recs, a, b));
    }
}

/// When no record lies above `c`, bounds above `c` scan as if they were `c`:
/// they yield nothing beyond the records held.
pub proof fn lemma_scan_clamped<E>(recs: Seq<(u64, E)>, a: u64, b: u64, c: u64)
    requires
        seqs_nondecreasing(recs),
        forall|i: int| 0 <= i < recs.len() ==> #[trigger] recs[i].0 <= c,
    ensures
        scan_spec(recs, a, b) == scan_spec(
            recs,
            if a <= c {
                a
            } else {
                c
            },
            if b <= c {
                b
            } else {
                c
            },
        ),
{
    let a2 = if a <= c {
        a
    } else {
        c
    };
    let b2 = if b <= c {
        b
    } else {
        c
    };
    lemma_le_count_clamped(recs, a, c);
    lemma_le_count_clamped(recs, b, c);
    lemma_le_count(recs, a);
    lemma_le_count(recs, b);
    if a > b && a2 == b2 {
        let w = recs.subrange(le_count(recs, b), le_count(recs, a));
        assert(w.len() == 0);
        assert(w.reverse() =~= w);
    }
}

/// When no record lies above `c`, the state at any seq from `c` on is the
/// state at `c`: records not yet written contribute nothing.
pub proof fn lemma_state_clamped<P: Projection>(p: P, recs: Seq<(u64, P::Event)>, s: u64, c: u64)
    requires
        seqs_nondecreasing(recs),
        forall|i: int| 0 <= i < recs.len() ==> #[trigger] recs[i].0 <= c,
        c <= s,
    ensures
        state_at(p, recs, s) == state_at(p, recs, c),
{
    lemma_le_count_clamped(recs, s, c);
}

proof fn lemma_le_count_clamped<E>(recs: Seq<(u64, E)>, x: u64, c: u64)
    requires
        seqs_nondecreasing(recs),
        forall|i: int| 0 <= i < recs.len() ==> #[trigger] recs[i].0 <= c,
    ensures
        le_count(recs, x) == le_count(
            recs,
            if x <= c {
                x
            } else {
                c
            },
        ),
{
    if x > c {
        assert forall|j: int| 0 <= j < recs.len() implies #[trigger] recs[j].0 <= x by {}
        assert forall|j: int| 0 <= j < recs.len() implies #[trigger] recs[j].0 <= c by {}
        crate::scan::lemma_le_count_unique(recs, x, recs.len() as int);
        crate::scan::lemma_le_count_unique(recs, c, recs.len() as int);
    }
}

/// The update inserts a value for `k`.
pub open spec fn inserts(op: UpdateOp, k: Seq<char>) -> bool {
    match op {
        UpdateOp::Insert(k2, _) => k2 == k,
        _ => false,
    }
}

proof fn lemma_no_insert_ops(ops: Seq<UpdateOp>, k: Seq<char>)
    requires
        forall|t: int| 0 <= t < ops.len() ==> !inserts(#[trigger] ops[t], k),
    ensures
        ops_effect(ops, k) is None || ops_effect(ops, k) == Some(None::<Seq<char>>),
    decreases ops.len(),
{
    if ops.len() > 0 {
        assert(!inserts(ops[ops.len() - 1], k));
        lemma_no_insert_ops(ops.drop_last(), k);
    }
}

proof fn lemma_no_insert_recs<P: Projection>(p: P, recs: Seq<(u64, P::Event)>, k: Seq<char>)
    requires
        forall|r: int, t: int|
            0 <= r < recs.len() && 0 <= t < p.updates(recs[r].1).len() ==> !inserts(
                #[trigger] p.updates(recs[r].1)[t],
                k,
            ),
    ensures
        recs_effect(p, recs, k) is None || recs_effect(p, recs, k) == Some(None::<Seq<char>>),
    decreases recs.len(),
{
    if recs.len() > 0 {
        let ops = p.updates(recs.last().1);
        assert forall|t: int| 0 <= t < ops.len() implies !inserts(#[trigger] ops[t], k) by {
            assert(!inserts(p.updates(recs[recs.len() - 1].1)[t], k));
        }
        lemma_no_insert_ops(ops, k);
        lemma_no_insert_recs(p, recs.drop_last(), k);
    }
}

/// After an update that clears the map, the state at any seq from there on
/// holds no key that was not inserted again after the clear.
pub proof fn lemma_clear_semantics<P: Projection>(
    p: P,
    recs: Seq<(u64, P::Event)>,
    i: int,
    j: int,
    s: u64,
    k: Seq<char>,
)
    requires
        seqs_nondecreasing(recs),
        0 <= i < recs.len(),
        recs[i].0 <= s,
        0 <= j < p.updates(recs[i].1).len(),
        p.updates(recs[i].1)[j] == UpdateOp::Clear,
        forall|t: int|
            j < t < p.updates(recs[i].1).len() ==> !inserts(#[trigger] p.updates(recs[i].1)[t], k),
        forall|r: int, t: int|
            i < r < recs.len() && recs[r].0 <= s && 0 <= t < p.updates(recs[r].1).len()
                ==> !inserts(#[trigger] p.updates(recs[r].1)[t], k),
    ensures
        !state_at(p, recs, s).contains_key(k),
{
    lemma_le_count(recs, s);
    let n = le_count(recs, s);
    assert(i < n) by {
        if i >= n {
            assert(recs[i].0 > s);
        }
    }
    let pre = recs.take(n);
    lemma_replay_lookup(p, Map::empty(), pre, k);
    // the effect of the records after the clearing one
    let rest = pre.subrange(i + 1, n);
    assert forall|r: int, t: int|
        0 <= r < rest.len() && 0 <= t < p.updates(rest[r].1).len() implies !inserts(
        #[trigger] p.updates(rest[r].1)[t],
        k,
    ) by {
        assert(rest[r] == recs[i + 1 + r]);
        assert(recs[i + 1 + r].0 <= s);
    }
    lemma_no_insert_recs(p, rest, k);
    // the effect of the clearing record itself
    let ops = p.updates(recs[i].1);
    let tail = ops.subrange(j + 1, ops.len() as int);
    assert forall|t: int| 0 <= t < tail.len() implies !inserts(#[trigger] tail[t], k) by {
        assert(tail[t] == ops[j + 1 + t]);
    }
    lemma_no_insert_ops(tail, k);
    let front = ops.take(j + 1);
    assert(ops =~= front + tail);
    lemma_ops_effect_concat(front, tail, k);
    assert(front.last() == UpdateOp::Clear);
    assert(ops_effect(front, k) == Some(None::<Seq<char>>));
    lemma_recs_step_back(p, pre, i, n, k);
    assert(pre[i] == recs[i]);
    assert(pre =~= pre.subrange(0, i) + pre.subrange(i, n));
    lemma_recs_effect_concat(p, pre.subrange(0, i), pre.subrange(i, n), k);
}

/// A forward merge yields first the head of the member whose head comes first
/// in `(seq, member)` order (on equal seqs, the lowest index), and only that
/// member loses its head.
pub proof fn lemma_merge_head<E>(ss: Seq<Seq<(u64, E)>>, m: int)
    requires
        0 <= m < ss.len(),
        ss[m].len() > 0,
    ensures
        0 <= first_in(ss, ss.len() as int) < ss.len(),
        ss[first_in(ss, ss.len() as int)].len() > 0,
        forall|j: int|
            0 <= j < ss.len() && #[trigger] ss[j].len() > 0 ==> head_before(
                ss,
                first_in(ss, ss.len() as int),
                j,
            ),
        merge(ss).len() > 0,
        merge(ss)[0] == ss[first_in(ss, ss.len() as int)][0],
        merge(ss).drop_first() == merge(
            ss.update(
                first_in(ss, ss.len() as int),
                ss[first_in(ss, ss.len() as int)].drop_first(),
            ),
        ),
{
    lemma_first_in(ss, ss.len() as int);
    let f = first_in(ss, ss.len() as int);
    lemma_merge_front(ss, f);
    assert(merge(ss).drop_first() =~= merge(ss.update(f, ss[f].drop_first())));
}

/// A backward merge yields first the tail of the member whose tail comes last
/// in `(seq, member)` order (on equal seqs, the highest index), and only that
/// member loses its tail.
pub proof fn lemma_merge_tail<E>(ss: Seq<Seq<(u64, E)>>, m: int)
    requires
        members_sorted(ss),
        0 <= m < ss.len(),
        ss[m].len() > 0,
    ensures
        0 <= last_in(ss, ss.len() as int) < ss.len(),
        ss[last_in(ss, ss.len() as int)].len() > 0,
        forall|j: int|
            0 <= j < ss.len() && #[trigger] ss[j].len() > 0 ==> tail_after(
                ss,
                last_in(ss, ss.len() as int),
                j,
            ),
        merge(ss).len() > 0,
        merge(ss).last() == ss[last_in(ss, ss.len() as int)].last(),
        merge(ss).drop_last() == merge(
            ss.update(
                last_in(ss, ss.len() as int),
                ss[last_in(ss, ss.len() as int)].drop_last(),
            ),
        ),
{
    lemma_last_in(ss, ss.len() as int);
    let l = last_in(ss, ss.len() as int);
    lemma_merge_back(ss, l);
    let rest = merge(ss.update(l, ss[l].drop_last()));
    assert(merge(ss).drop_last() =~= rest);
}

/// Every record's `(seq, member)` pair comes no earlier than `(s0, m0)`.
pub open spec fn all_from(recs: Seq<(u64, int)>, s0: u64, m0: int) -> bool {
    forall|t: int|
        0 <= t < recs.len() ==> #[trigger] recs[t].0 > s0 || (recs[t].0 == s0 && recs[t].1 >= m0)
}

/// The records are sorted by seq, and records that share a seq by member.
pub open spec fn sorted_by_seq_then_member(recs: Seq<(u64, int)>) -> bool {
    forall|x: int, y: int|
        0 <= x < y < recs.len() ==> recs[x].0 < recs[y].0 || (recs[x].0 == recs[y].0 && recs[x].1
            <= recs[y].1)
}

proof fn lemma_merge_from(ss: Seq<Seq<(u64, int)>>, s0: u64, m0: int)
    requires
        forall|i: int| 0 <= i < ss.len() ==> all_from(#[trigger] ss[i], s0, m0),
    ensures
        all_from(merge(ss), s0, m0),
    decreases total(ss),
{
    lemma_first_in(ss, ss.len() as int);
    let i = first_in(ss, ss.len() as int);
    if i >= 0 {
        let ss1 = ss.update(i, ss[i].drop_first());
        lemma_total_update(ss, i, ss[i].drop_first());
        assert forall|a: int| 0 <= a < ss1.len() implies all_from(#[trigger] ss1[a], s0, m0) by {
            if a == i {
                assert forall|t: int| 0 <= t < ss1[a].len() implies #[trigger] ss1[a][t].0 > s0 || (
                ss1[a][t].0 == s0 && ss1[a][t].1 >= m0) by {
                    assert(ss1[a][t] == ss[i][t + 1]);
                }
            }
        }
        lemma_merge_from(ss1, s0, m0);
        lemma_merge_front(ss, i);
        let m = merge(ss);
        assert forall|t: int| 0 <= t < m.len() implies #[trigger] m[t].0 > s0 || (m[t].0 == s0
            && m[t].1 >= m0) by {
            if t > 0 {
                assert(m[t] == merge(ss1)[t - 1]);
            } else {
                assert(all_from(ss[i], s0, m0));
            }
        }
    }
}

/// When each member's records carry that member's index, the merge is sorted
/// by seq and then by member: records that share a seq come in ascending
/// member order in a forward scan, and so in descending member order in the
/// backward scan, which yields the same records reversed.
pub proof fn lemma_ties_by_member(ss: Seq<Seq<(u64, int)>>)
    requires
        members_sorted(ss),
        forall|i: int, t: int| 0 <= i < ss.len() && 0 <= t < ss[i].len() ==> #[trigger] ss[i][t].1 == i,
    ensures
        sorted_by_seq_then_member(merge(ss)),
    decreases total(ss),
{
    lemma_first_in(ss, ss.len() as int);
    let i = first_in(ss, ss.len() as int);
    if i >= 0 {
        let h = ss[i][0];
        let ss1 = ss.update(i, ss[i].drop_first());
        lemma_total_update(ss, i, ss[i].drop_first());
        lemma_sorted_after_front(ss, i);
        assert forall|a: int, t: int| 0 <= a < ss1.len() && 0 <= t < ss1[a].len() implies #[trigger] ss1[a][t].1
            == a by {
            if a == i {
                assert(ss1[a][t] == ss[i][t + 1]);
            }
        }
        lemma_ties_by_member(ss1);
        assert(h.1 == i);
        assert forall|a: int| 0 <= a < ss1.len() implies all_from(#[trigger] ss1[a], h.0, i) by {
            assert forall|t: int| 0 <= t < ss1[a].len() implies #[trigger] ss1[a][t].0 > h.0 || (
            ss1[a][t].0 == h.0 && ss1[a][t].1 >= i) by {
                assert(seqs_nondecreasing(ss[a]));
                if a == i {
                    assert(ss1[a][t] == ss[i][t + 1]);
                    assert(ss[i][0].0 <= ss[i][t + 1].0);
                    assert(ss[i][t + 1].1 == i);
                } else {
                    assert(ss1[a][t] == ss[a][t]);
                    assert(ss[a][0].0 <= ss[a][t].0);
                    assert(head_before(ss, i, a));
                    assert(ss[a][t].1 == a);
                }
            }
        }
        lemma_merge_from(ss1, h.0, i);
        lemma_merge_front(ss, i);
        let m = merge(ss);
        let m1 = merge(ss1);
        assert forall|x: int, y: int| 0 <= x < y < m.len() implies m[x].0 < m[y].0 || (m[x].0
            == m[y].0 && m[x].1 <= m[y].1) by {
            assert(m[y] == m1[y - 1]);
            if x > 0 {
                assert(m[x] == m1[x - 1]);
            }
        }
    }
}

} // verus!
