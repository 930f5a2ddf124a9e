//! The `(seq, member)` order in which a composite view interleaves its members.
use vstd::prelude::*;

use crate::scan::{le_count, lemma_le_count, lemma_le_count_unique, seqs_nondecreasing};

verus! {

/// How many records the members hold in all.
pub open spec fn total<E>(ss: Seq<Seq<(u64, E)>>) -> nat
    decreases ss.len(),
{
    if ss.len() == 0 {
        0
    } else {
        total(ss.drop_last()) + ss.last().len()
    }
}

/// Every member's seqs are non-decreasing.
pub open spec fn members_sorted<E>(ss: Seq<Seq<(u64, E)>>) -> bool {
    forall|i: int| 0 <= i < ss.len() ==> seqs_nondecreasing(#[trigger] ss[i])
}

/// Member `i`'s first record comes no later than member `j`'s in
/// `(seq, member)` order.
pub open spec fn head_before<E>(ss: Seq<Seq<(u64, E)>>, i: int, j: int) -> bool {
    ss[i][0].0 < ss[j][0].0 || (ss[i][0].0 == ss[j][0].0 && i <= j)
}

/// Member `i`'s last record comes no earlier than member `j`'s in
/// `(seq, member)` order.
pub open spec fn tail_after<E>(ss: Seq<Seq<(u64, E)>>, i: int, j: int) -> bool {
    ss[i].last().0 > ss[j].last().0 || (ss[i].last().0 == ss[j].last().0 && i >= j)
}

/// The member among the first `n` whose first record comes first, or -1 if
/// they are all empty.
pub open spec fn first_in<E>(ss: Seq<Seq<(u64, E)>>, n: int) -> int
    decreases n,
{
    if n <= 0 {
        -1
    } else {
        let b = first_in(ss, n - 1);
        if ss[n - 1].len() == 0 {
            b
        } else if b < 0 {
            n - 1
        } else if ss[n - 1][0].0 < ss[b][0].0 {
            n - 1
        } else {
            b
        }
    }
}

/// The member among the first `n` whose last record comes last, or -1 if they
/// are all empty.
pub open spec fn last_in<E>(ss: Seq<Seq<(u64, E)>>, n: int) -> int
    decreases n,
{
    if n <= 0 {
        -1
    } else {
        let b = last_in(ss, n - 1);
        if ss[n - 1].len() == 0 {
            b
        } else if b < 0 {
            n - 1
        } else if ss[n - 1].last().0 >= ss[b].last().0 {
            n - 1
        } else {
            b
        }
    }
}

pub proof fn lemma_total_update<E>(ss: Seq<Seq<(u64, E)>>, i: int, s: Seq<(u64, E)>)
    requires
        0 <= i < ss.len(),
    ensures
        total(ss.update(i, s)) == total(ss) - ss[i].len() + s.len(),
    decreases ss.len(),
{
    if i < ss.len() - 1 {
        assert(ss.update(i, s).drop_last() =~= ss.drop_last().update(i, s));
        lemma_total_update(ss.drop_last(), i, s);
    } else {
        assert(ss.update(i, s).drop_last() =~= ss.drop_last());
    }
}

pub proof fn lemma_first_in<E>(ss: Seq<Seq<(u64, E)>>, n: int)
    requires
        0 <= n <= ss.len(),
    ensures
        -1 <= first_in(ss, n) < n,
        first_in(ss, n) == -1 <==> forall|j: int| 0 <= j < n ==> #[trigger] ss[j].len() == 0,
        first_in(ss, n) >= 0 ==> ss[first_in(ss, n)].len() > 0 && forall|j: int|
            0 <= j < n && #[trigger] ss[j].len() > 0 ==> head_before(ss, first_in(ss, n), j),
    decreases n,
{
    if n > 0 {
        lemma_first_in(ss, n - 1);
        let b = first_in(ss, n - 1);
        if first_in(ss, n) == -1 {
            assert forall|j: int| 0 <= j < n implies #[trigger] ss[j].len() == 0 by {
                if j < n - 1 {
                }
            }
        }
    }
}

/// The member that comes first is the one `first_in` finds.
pub proof fn lemma_first_unique<E>(ss: Seq<Seq<(u64, E)>>, i: int)
    requires
        0 <= i < ss.len(),
        ss[i].len() > 0,
        forall|j: int| 0 <= j < ss.len() && #[trigger] ss[j].len() > 0 ==> head_before(ss, i, j),
    ensures
        first_in(ss, ss.len() as int) == i,
{
    lemma_first_in(ss, ss.len() as int);
    let b = first_in(ss, ss.len() as int);
    assert(ss[i].len() > 0);
    assert(head_before(ss, i, b));
    assert(head_before(ss, b, i));
}

pub proof fn lemma_last_in<E>(ss: Seq<Seq<(u64, E)>>, n: int)
    requires
        0 <= n <= ss.len(),
    ensures
        -1 <= last_in(ss, n) < n,
        last_in(ss, n) == -1 <==> forall|j: int| 0 <= j < n ==> #[trigger] ss[j].len() == 0,
        last_in(ss, n) >= 0 ==> ss[last_in(ss, n)].len() > 0 && forall|j: int|
            0 <= j < n && #[trigger] ss[j].len() > 0 ==> tail_after(ss, last_in(ss, n), j),
    decreases n,
{
    if n > 0 {
        lemma_last_in(ss, n - 1);
        if last_in(ss, n) == -1 {
            assert forall|j: int| 0 <= j < n implies #[trigger] ss[j].len() == 0 by {
                if j < n - 1 {
                }
            }
        }
    }
}

/// The records of all members in `(seq, member)` order: repeatedly the first
/// record of the member whose first record comes first.
pub open spec fn merge<E>(ss: Seq<Seq<(u64, E)>>) -> Seq<(u64, E)>
    decreases total(ss),
{
    let i = first_in(ss, ss.len() as int);
    if i < 0 {
        Seq::empty()
    } else {
        proof {
            lemma_first_in(ss, ss.len() as int);
            lemma_total_update(ss, i, ss[i].drop_first());
        }
        seq![ss[i][0]] + merge(ss.update(i, ss[i].drop_first()))
    }
}

/// The merge takes the first record of the member that comes first.
pub proof fn lemma_merge_front<E>(ss: Seq<Seq<(u64, E)>>, i: int)
    requires
        0 <= i < ss.len(),
        first_in(ss, ss.len() as int) == i,
    ensures
        merge(ss) == seq![ss[i][0]] + merge(ss.update(i, ss[i].drop_first())),
{
}

/// Members that are all empty merge to nothing.
pub proof fn lemma_merge_empty<E>(ss: Seq<Seq<(u64, E)>>)
    requires
        forall|j: int| 0 <= j < ss.len() ==> #[trigger] ss[j].len() == 0,
    ensures
        merge(ss) == Seq::<(u64, E)>::empty(),
{
    lemma_first_in(ss, ss.len() as int);
}

/// Every record the merge yields is at least `lb` when every member's is.
pub proof fn lemma_merge_bounds<E>(ss: Seq<Seq<(u64, E)>>, lb: u64)
    requires
        forall|i: int, t: int| 0 <= i < ss.len() && 0 <= t < ss[i].len() ==> #[trigger] ss[i][t].0 >= lb,
    ensures
        forall|t: int| 0 <= t < merge(ss).len() ==> #[trigger] merge(ss)[t].0 >= lb,
    decreases total(ss),
{
    let i = first_in(ss, ss.len() as int);
    lemma_first_in(ss, ss.len() as int);
    if i >= 0 {
        let ss1 = ss.update(i, ss[i].drop_first());
        lemma_total_update(ss, i, ss[i].drop_first());
        assert forall|a: int, t: int| 0 <= a < ss1.len() && 0 <= t < ss1[a].len() implies #[trigger] ss1[a][t].0
            >= lb by {
            if a == i {
                assert(ss1[a][t] == ss[i][t + 1]);
            }
        }
        lemma_merge_bounds(ss1, lb);
        let m = merge(ss);
        assert forall|t: int| 0 <= t < m.len() implies #[trigger] m[t].0 >= lb by {
            if t > 0 {
                assert(m[t] == merge(ss1)[t - 1]);
            }
        }
    }
}

/// Every record of every member comes no earlier than the head of the member
/// that comes first.
pub proof fn lemma_first_is_least<E>(ss: Seq<Seq<(u64, E)>>)
    requires
        members_sorted(ss),
        first_in(ss, ss.len() as int) >= 0,
    ensures
        forall|a: int, t: int| 0 <= a < ss.len() && 0 <= t < ss[a].len() ==> #[trigger] ss[a][t].0
            >= ss[first_in(ss, ss.len() as int)][0].0,
{
    lemma_first_in(ss, ss.len() as int);
    let i = first_in(ss, ss.len() as int);
    assert forall|a: int, t: int| 0 <= a < ss.len() && 0 <= t < ss[a].len() implies #[trigger] ss[a][t].0
        >= ss[i][0].0 by {
        assert(seqs_nondecreasing(ss[a]));
        assert(ss[a][0].0 <= ss[a][t].0);
        assert(head_before(ss, i, a));
    }
}

/// Dropping the head of a sorted member keeps the members sorted.
pub proof fn lemma_sorted_after_front<E>(ss: Seq<Seq<(u64, E)>>, i: int)
    requires
        members_sorted(ss),
        0 <= i < ss.len(),
        ss[i].len() > 0,
    ensures
        members_sorted(ss.update(i, ss[i].drop_first())),
        members_sorted(ss.update(i, ss[i].drop_last())),
{
    let s = ss[i];
    assert(seqs_nondecreasing(s));
    assert(seqs_nondecreasing(s.drop_first()));
    assert(seqs_nondecreasing(s.drop_last()));
    let a = ss.update(i, s.drop_first());
    let b = ss.update(i, s.drop_last());
    assert forall|j: int| 0 <= j < a.len() implies seqs_nondecreasing(#[trigger] a[j]) by {
        if j != i {
            assert(a[j] == ss[j]);
        }
    }
    assert forall|j: int| 0 <= j < b.len() implies seqs_nondecreasing(#[trigger] b[j]) by {
        if j != i {
            assert(b[j] == ss[j]);
        }
    }
}

/// The merge of sorted members is sorted.
pub proof fn lemma_merge_sorted<E>(ss: Seq<Seq<(u64, E)>>)
    requires
        members_sorted(ss),
    ensures
        seqs_nondecreasing(merge(ss)),
    decreases total(ss),
{
    let i = first_in(ss, ss.len() as int);
    lemma_first_in(ss, ss.len() as int);
    if i >= 0 {
        let h = ss[i][0];
        let ss1 = ss.update(i, ss[i].drop_first());
        lemma_total_update(ss, i, ss[i].drop_first());
        lemma_sorted_after_front(ss, i);
        lemma_merge_sorted(ss1);
        lemma_first_is_least(ss);
        assert forall|a: int, t: int| 0 <= a < ss1.len() && 0 <= t < ss1[a].len() implies #[trigger] ss1[a][t].0
            >= h.0 by {
            if a == i {
                assert(ss1[a][t] == ss[i][t + 1]);
            }
        }
        lemma_merge_bounds(ss1, h.0);
        let m = merge(ss);
        let m1 = merge(ss1);
        assert forall|x: int, y: int| 0 <= x <= y < m.len() implies m[x].0 <= m[y].0 by {
            if x > 0 {
                assert(m[x] == m1[x - 1]);
                assert(m[y] == m1[y - 1]);
            } else if y > 0 {
                assert(m[y] == m1[y - 1]);
            }
        }
    }
}

/// Putting one record before sorted ones that it does not exceed.
pub proof fn lemma_le_count_cons<E>(h: (u64, E), rest: Seq<(u64, E)>, b: u64)
    requires
        seqs_nondecreasing(seq![h] + rest),
    ensures
        h.0 <= b ==> le_count(seq![h] + rest, b) == 1 + le_count(rest, b),
        h.0 > b ==> le_count(seq![h] + rest, b) == 0,
{
    let s = seq![h] + rest;
    assert(seqs_nondecreasing(rest)) by {
        assert forall|x: int, y: int| 0 <= x <= y < rest.len() implies rest[x].0 <= rest[y].0 by {
            assert(s[x + 1] == rest[x]);
            assert(s[y + 1] == rest[y]);
        }
    }
    lemma_le_count(rest, b);
    let k = le_count(rest, b);
    if h.0 <= b {
        assert forall|j: int| 0 <= j < k + 1 implies #[trigger] s[j].0 <= b by {
            if j > 0 {
                assert(s[j] == rest[j - 1]);
            }
        }
        assert forall|j: int| k + 1 <= j < s.len() implies #[trigger] s[j].0 > b by {
            assert(s[j] == rest[j - 1]);
        }
        lemma_le_count_unique(s, b, k + 1);
    } else {
        assert forall|j: int| 0 <= j < s.len() implies #[trigger] s[j].0 > b by {
            assert(s[0].0 <= s[j].0);
        }
        lemma_le_count_unique(s, b, 0);
    }
}

/// Cutting sorted records at `b` does not move the cut at `a <= b`.
pub proof fn lemma_le_count_take<E>(s: Seq<(u64, E)>, a: u64, b: u64)
    requires
        seqs_nondecreasing(s),
        a <= b,
    ensures
        0 <= le_count(s, a) <= le_count(s, b) <= s.len(),
        le_count(s.take(le_count(s, b)), a) == le_count(s, a),
{
    lemma_le_count(s, a);
    lemma_le_count(s, b);
    if le_count(s, b) < le_count(s, a) {
        let j = le_count(s, b);
        assert(s[j].0 <= a);
    }
    let t = s.take(le_count(s, b));
    let k = le_count(s, a);
    assert forall|j: int| 0 <= j < k implies #[trigger] t[j].0 <= a by {
        assert(t[j] == s[j]);
    }
    assert forall|j: int| k <= j < t.len() implies #[trigger] t[j].0 > a by {
        assert(t[j] == s[j]);
    }
    lemma_le_count_unique(t, a, k);
}

/// The merge ends with the last record of the member whose last record comes
/// last: taking from the back walks the merge in reverse.
pub proof fn lemma_merge_back<E>(ss: Seq<Seq<(u64, E)>>, j: int)
    requires
        members_sorted(ss),
        0 <= j < ss.len(),
        ss[j].len() > 0,
        forall|m: int| 0 <= m < ss.len() && #[trigger] ss[m].len() > 0 ==> tail_after(ss, j, m),
    ensures
        merge(ss) == merge(ss.update(j, ss[j].drop_last())).push(ss[j].last()),
    decreases total(ss),
{
    lemma_first_in(ss, ss.len() as int);
    let i = first_in(ss, ss.len() as int);
    let h = ss[i][0];
    let x = ss[j].last();
    let ss2 = ss.update(j, ss[j].drop_last());
    assert(ss2.len() == ss.len());
    if i == j && ss[j].len() == 1 {
        assert forall|m: int| 0 <= m < ss2.len() implies #[trigger] ss2[m].len() == 0 by {
            if m != j && ss[m].len() > 0 {
                assert(seqs_nondecreasing(ss[m]));
                assert(ss[m][0].0 <= ss[m].last().0);
                assert(head_before(ss, i, m));
                assert(tail_after(ss, j, m));
            }
        }
        lemma_merge_empty(ss2);
        let ss1 = ss.update(i, ss[i].drop_first());
        assert(ss[i].drop_first() =~= ss[j].drop_last());
        assert(ss1 =~= ss2);
        assert(merge(ss) == seq![h] + merge(ss1));
        assert(merge(ss) =~= merge(ss2).push(x));
    } else {
        let ss1 = ss.update(i, ss[i].drop_first());
        lemma_total_update(ss, i, ss[i].drop_first());
        lemma_sorted_after_front(ss, i);
        // member `j` still ends with `x`, and still comes last
        assert(ss1.len() == ss.len());
        assert(ss1[j].len() > 0 && ss1[j].last() == x);
        assert forall|m: int| 0 <= m < ss1.len() && #[trigger] ss1[m].len() > 0 implies tail_after(
            ss1,
            j,
            m,
        ) by {
            assert(ss[m].len() > 0);
            assert(ss1[m].last() == ss[m].last());
            assert(tail_after(ss, j, m));
        }
        lemma_merge_back(ss1, j);
        // member `i` still comes first once `x` is gone
        lemma_sorted_after_front(ss, j);
        assert(ss2[i].len() > 0 && ss2[i][0] == h);
        assert forall|m: int| 0 <= m < ss2.len() && #[trigger] ss2[m].len() > 0 implies head_before(
            ss2,
            i,
            m,
        ) by {
            assert(ss[m].len() > 0);
            assert(ss2[m][0] == ss[m][0]);
            assert(head_before(ss, i, m));
        }
        lemma_first_unique(ss2, i);
        lemma_merge_front(ss2, i);
        let a = ss2.update(i, ss2[i].drop_first());
        let b = ss1.update(j, ss1[j].drop_last());
        if i == j {
            assert(ss2[i].drop_first() =~= ss1[j].drop_last());
        }
        assert(a =~= b);
        assert(merge(ss) =~= merge(ss2).push(x));
    }
}

/// Each member cut to its records with seq up to `b`.
pub open spec fn cut_after<E>(ss: Seq<Seq<(u64, E)>>, b: u64) -> Seq<Seq<(u64, E)>> {
    Seq::new(ss.len(), |i: int| ss[i].take(le_count(ss[i], b)))
}

/// Each member cut to its records with seq above `a`.
pub open spec fn cut_through<E>(ss: Seq<Seq<(u64, E)>>, a: u64) -> Seq<Seq<(u64, E)>> {
    Seq::new(ss.len(), |i: int| ss[i].skip(le_count(ss[i], a)))
}

/// Each member cut to its records in `(a, b]`.
pub open spec fn windows<E>(ss: Seq<Seq<(u64, E)>>, a: u64, b: u64) -> Seq<Seq<(u64, E)>> {
    Seq::new(ss.len(), |i: int| ss[i].subrange(le_count(ss[i], a), le_count(ss[i], b)))
}

/// Cutting the first record off a sorted member whose first seq is at most `b`.
proof fn lemma_le_count_drop_first<E>(s: Seq<(u64, E)>, b: u64)
    requires
        seqs_nondecreasing(s),
        s.len() > 0,
    ensures
        s[0].0 <= b ==> le_count(s.drop_first(), b) == le_count(s, b) - 1,
        s[0].0 > b ==> le_count(s, b) == 0,
{
    assert(s =~= seq![s[0]] + s.drop_first());
    lemma_le_count_cons(s[0], s.drop_first(), b);
}

/// Cutting the members after `b` cuts their merge after `b`.
pub proof fn lemma_merge_cut_after<E>(ss: Seq<Seq<(u64, E)>>, b: u64)
    requires
        members_sorted(ss),
    ensures
        merge(cut_after(ss, b)) == merge(ss).take(le_count(merge(ss), b)),
    decreases total(ss),
{
    lemma_first_in(ss, ss.len() as int);
    let i = first_in(ss, ss.len() as int);
    let t = cut_after(ss, b);
    lemma_merge_sorted(ss);
    if i < 0 {
        assert forall|m: int| 0 <= m < t.len() implies #[trigger] t[m].len() == 0 by {
            assert(ss[m].len() == 0);
        }
        lemma_merge_empty(t);
        lemma_merge_empty(ss);
    } else {
        let h = ss[i][0];
        let ss1 = ss.update(i, ss[i].drop_first());
        lemma_total_update(ss, i, ss[i].drop_first());
        lemma_sorted_after_front(ss, i);
        lemma_merge_front(ss, i);
        lemma_first_is_least(ss);
        assert(seqs_nondecreasing(ss[i]));
        lemma_le_count_drop_first(ss[i], b);
        lemma_le_count_cons(h, merge(ss1), b);
        lemma_merge_sorted(ss1);
        lemma_le_count(merge(ss1), b);
        assert(ss1.len() == ss.len());
        if h.0 <= b {
            lemma_le_count(ss[i], b);
            assert(t[i].len() > 0 && t[i][0] == h);
            assert forall|m: int| 0 <= m < t.len() && #[trigger] t[m].len() > 0 implies head_before(
                t,
                i,
                m,
            ) by {
                assert(seqs_nondecreasing(ss[m]));
                lemma_le_count(ss[m], b);
                assert(ss[m].len() > 0);
                assert(t[m][0] == ss[m][0]);
                assert(head_before(ss, i, m));
            }
            lemma_first_unique(t, i);
            lemma_merge_front(t, i);
            assert(t.update(i, t[i].drop_first()) =~= cut_after(ss1, b)) by {
                let c1 = cut_after(ss1, b);
                assert forall|m: int| 0 <= m < t.len() implies #[trigger] t.update(
                    i,
                    t[i].drop_first(),
                )[m] == c1[m] by {
                    if m == i {
                        assert(t[i].drop_first() =~= ss1[i].take(le_count(ss1[i], b)));
                    }
                }
            }
            lemma_merge_cut_after(ss1, b);
            assert(merge(cut_after(ss, b)) =~= merge(ss).take(le_count(merge(ss), b)));
        } else {
            assert forall|m: int| 0 <= m < t.len() implies #[trigger] t[m].len() == 0 by {
                if ss[m].len() > 0 {
                    assert(seqs_nondecreasing(ss[m]));
                    lemma_le_count_drop_first(ss[m], b);
                    assert(ss[m][0].0 >= h.0);
                }
            }
            lemma_merge_empty(t);
            assert(merge(ss).take(0) =~= Seq::<(u64, E)>::empty());
        }
    }
}

/// Cutting the members through `a` cuts their merge through `a`.
pub proof fn lemma_merge_cut_through<E>(ss: Seq<Seq<(u64, E)>>, a: u64)
    requires
        members_sorted(ss),
    ensures
        merge(cut_through(ss, a)) == merge(ss).skip(le_count(merge(ss), a)),
    decreases total(ss),
{
    lemma_first_in(ss, ss.len() as int);
    let i = first_in(ss, ss.len() as int);
    let u = cut_through(ss, a);
    lemma_merge_sorted(ss);
    if i < 0 {
        assert forall|m: int| 0 <= m < u.len() implies #[trigger] u[m].len() == 0 by {
            assert(ss[m].len() == 0);
        }
        lemma_merge_empty(u);
        lemma_merge_empty(ss);
    } else {
        let h = ss[i][0];
        let ss1 = ss.update(i, ss[i].drop_first());
        lemma_total_update(ss, i, ss[i].drop_first());
        lemma_sorted_after_front(ss, i);
        lemma_merge_front(ss, i);
        lemma_first_is_least(ss);
        assert(seqs_nondecreasing(ss[i]));
        lemma_le_count_drop_first(ss[i], a);
        lemma_le_count_cons(h, merge(ss1), a);
        lemma_merge_sorted(ss1);
        lemma_le_count(merge(ss1), a);
        if h.0 <= a {
            lemma_le_count(ss[i], a);
            assert(u =~= cut_through(ss1, a)) by {
                assert(ss[i].skip(le_count(ss[i], a)) =~= ss[i].drop_first().skip(
                    le_count(ss[i].drop_first(), a),
                ));
            }
            lemma_merge_cut_through(ss1, a);
            assert(merge(ss).skip(le_count(merge(ss), a)) =~= merge(ss1).skip(
                le_count(merge(ss1), a),
            ));
        } else {
            assert(u =~= ss) by {
                assert forall|m: int| 0 <= m < u.len() implies #[trigger] u[m] == ss[m] by {
                    if ss[m].len() > 0 {
                        assert(seqs_nondecreasing(ss[m]));
                        lemma_le_count_drop_first(ss[m], a);
                        assert(ss[m][0].0 >= h.0);
                    } else {
                        lemma_le_count(ss[m], a);
                    }
                    assert(ss[m].skip(0) =~= ss[m]);
                }
            }
            assert(merge(ss).skip(0) =~= merge(ss));
        }
    }
}

/// Scanning the members over `(a, b]` and merging is scanning the merge.
pub proof fn lemma_merge_windows<E>(ss: Seq<Seq<(u64, E)>>, a: u64, b: u64)
    requires
        members_sorted(ss),
        a <= b,
    ensures
        merge(windows(ss, a, b)) == merge(ss).subrange(
            le_count(merge(ss), a),
            le_count(merge(ss), b),
        ),
{
    let t = cut_after(ss, b);
    assert(members_sorted(t)) by {
        assert forall|m: int| 0 <= m < t.len() implies seqs_nondecreasing(#[trigger] t[m]) by {
            assert(seqs_nondecreasing(ss[m]));
            lemma_le_count(ss[m], b);
            assert forall|x: int, y: int| 0 <= x <= y < t[m].len() implies t[m][x].0 <= t[m][y].0 by {
                assert(t[m][x] == ss[m][x]);
                assert(t[m][y] == ss[m][y]);
            }
        }
    }
    assert(windows(ss, a, b) =~= cut_through(t, a)) by {
        assert forall|m: int| 0 <= m < t.len() implies #[trigger] windows(ss, a, b)[m] == cut_through(
            t,
            a,
        )[m] by {
            assert(seqs_nondecreasing(ss[m]));
            lemma_le_count_take(ss[m], a, b);
            assert(ss[m].subrange(le_count(ss[m], a), le_count(ss[m], b)) =~= t[m].skip(
                le_count(t[m], a),
            ));
        }
    }
    lemma_merge_cut_through(t, a);
    lemma_merge_cut_after(ss, b);
    lemma_merge_sorted(ss);
    let m = merge(ss);
    lemma_le_count_take(m, a, b);
    assert(m.take(le_count(m, b)).skip(le_count(m, a)) =~= m.subrange(
        le_count(m, a),
        le_count(m, b),
    ));
}

} // verus!
