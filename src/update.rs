//! The update vocabulary that an index folds, and what folding means.
use vstd::prelude::*;

use crate::scan::le_count;

verus! {

/// One change to a key/value projection.
pub enum HashMapUpdate {
    Insert { key: String, value: String },
    Remove { key: String },
    Clear,
}

/// The model of a [`HashMapUpdate`], over the strings' characters.
pub enum UpdateOp {
    Insert(Seq<char>, Seq<char>),
    Remove(Seq<char>),
    Clear,
}

impl View for HashMapUpdate {
    type V = UpdateOp;

    open spec fn view(&self) -> UpdateOp {
        match self {
            HashMapUpdate::Insert { key, value } => UpdateOp::Insert(key@, value@),
            HashMapUpdate::Remove { key } => UpdateOp::Remove(key@),
            HashMapUpdate::Clear => UpdateOp::Clear,
        }
    }
}

/// The models of a list of updates.
pub open spec fn ops_view(us: Seq<HashMapUpdate>) -> Seq<UpdateOp> {
    us.map_values(|u: HashMapUpdate| u@)
}

/// Turns an event into the updates it stands for. The result depends on the
/// event alone, so an event may be projected any number of times.
pub trait Projection {
    type Event;

    spec fn updates(&self, event: Self::Event) -> Seq<UpdateOp>;

    fn to_assignment(&self, event: &Self::Event) -> (r: Vec<HashMapUpdate>)
        ensures
            ops_view(r@) == self.updates(*event),
    ;
}

/// Projects a `(key, value)` event to the insertion of that pair.
pub struct InsertPair;

/// Projects an event that is already an update to that update.
pub struct SelfUpdate;

impl Projection for InsertPair {
    type Event = (String, String);

    open spec fn updates(&self, event: (String, String)) -> Seq<UpdateOp> {
        seq![UpdateOp::Insert(event.0@, event.1@)]
    }

    fn to_assignment(&self, event: &(String, String)) -> (r: Vec<HashMapUpdate>) {
        let u = HashMapUpdate::Insert { key: event.0.clone(), value: event.1.clone() };
        let r = vec![u];
        assert(ops_view(r@) =~= self.updates(*event));
        r
    }
}

impl Projection for SelfUpdate {
    type Event = HashMapUpdate;

    open spec fn updates(&self, event: HashMapUpdate) -> Seq<UpdateOp> {
        seq![event@]
    }

    fn to_assignment(&self, event: &HashMapUpdate) -> (r: Vec<HashMapUpdate>) {
        let u = match event {
            HashMapUpdate::Insert { key, value } => HashMapUpdate::Insert {
                key: key.clone(),
                value: value.clone(),
            },
            HashMapUpdate::Remove { key } => HashMapUpdate::Remove { key: key.clone() },
            HashMapUpdate::Clear => HashMapUpdate::Clear,
        };
        let r = vec![u];
        assert(ops_view(r@) =~= self.updates(*event));
        r
    }
}

/// The map after one update.
pub open spec fn apply_op(m: Map<Seq<char>, Seq<char>>, op: UpdateOp) -> Map<
    Seq<char>,
    Seq<char>,
> {
    match op {
        UpdateOp::Insert(k, v) => m.insert(k, v),
        UpdateOp::Remove(k) => m.remove(k),
        UpdateOp::Clear => Map::empty(),
    }
}

/// The map after the updates, in order.
pub open spec fn apply_ops(m: Map<Seq<char>, Seq<char>>, ops: Seq<UpdateOp>) -> Map<
    Seq<char>,
    Seq<char>,
>
    decreases ops.len(),
{
    if ops.len() == 0 {
        m
    } else {
        apply_op(apply_ops(m, ops.drop_last()), ops.last())
    }
}

/// The map after the updates of every record, in record order.
pub open spec fn replay<P: Projection>(
    p: P,
    m: Map<Seq<char>, Seq<char>>,
    recs: Seq<(u64, P::Event)>,
) -> Map<Seq<char>, Seq<char>>
    decreases recs.len(),
{
    if recs.len() == 0 {
        m
    } else {
        apply_ops(replay(p, m, recs.drop_last()), p.updates(recs.last().1))
    }
}

/// The map at `s`: the updates of the records with seq up to `s`, folded in
/// order from the empty map.
pub open spec fn state_at<P: Projection>(p: P, recs: Seq<(u64, P::Event)>, s: u64) -> Map<
    Seq<char>,
    Seq<char>,
> {
    replay(p, Map::empty(), recs.take(le_count(recs, s)))
}

/// The value of `k` in `m`, if any.
pub open spec fn lookup(m: Map<Seq<char>, Seq<char>>, k: Seq<char>) -> Option<Seq<char>> {
    if m.contains_key(k) {
        Some(m[k])
    } else {
        None
    }
}

/// What one update does to `k`: `None` if it leaves `k` alone, else the value
/// `k` has after it (`Some(None)` for absent).
pub open spec fn op_effect(op: UpdateOp, k: Seq<char>) -> Option<Option<Seq<char>>> {
    match op {
        UpdateOp::Insert(k2, v) => if k2 == k {
            Some(Some(v))
        } else {
            None
        },
        UpdateOp::Remove(k2) => if k2 == k {
            Some(None)
        } else {
            None
        },
        UpdateOp::Clear => Some(None),
    }
}

/// The effect of the last update in `ops` that touches `k`.
pub open spec fn ops_effect(ops: Seq<UpdateOp>, k: Seq<char>) -> Option<Option<Seq<char>>>
    decreases ops.len(),
{
    if ops.len() == 0 {
        None
    } else {
        match op_effect(ops.last(), k) {
            Some(x) => Some(x),
            None => ops_effect(ops.drop_last(), k),
        }
    }
}

/// The effect of the last update in the records that touches `k`.
pub open spec fn recs_effect<P: Projection>(p: P, recs: Seq<(u64, P::Event)>, k: Seq<char>) -> Option<
    Option<Seq<char>>,
>
    decreases recs.len(),
{
    if recs.len() == 0 {
        None
    } else {
        match ops_effect(p.updates(recs.last().1), k) {
            Some(x) => Some(x),
            None => recs_effect(p, recs.drop_last(), k),
        }
    }
}

/// The first of two effects that is there: `first` is the more recent one.
pub open spec fn later(
    first: Option<Option<Seq<char>>>,
    second: Option<Option<Seq<char>>>,
) -> Option<Option<Seq<char>>> {
    match first {
        Some(x) => Some(x),
        None => second,
    }
}

/// A later effect wins over an earlier value.
pub open spec fn after(e: Option<Option<Seq<char>>>, base: Option<Seq<char>>) -> Option<Seq<char>> {
    match e {
        Some(x) => x,
        None => base,
    }
}

/// Two maps with the same lookups are equal.
pub proof fn lemma_lookup_ext(a: Map<Seq<char>, Seq<char>>, b: Map<Seq<char>, Seq<char>>)
    requires
        forall|k: Seq<char>| #[trigger] lookup(a, k) == lookup(b, k),
    ensures
        a == b,
{
    assert forall|k: Seq<char>| #[trigger] a.contains_key(k) == b.contains_key(k) by {
        assert(lookup(a, k) == lookup(b, k));
    }
    assert forall|k: Seq<char>| #[trigger] a.contains_key(k) implies a[k] == b[k] by {
        assert(lookup(a, k) == lookup(b, k));
    }
    assert(a =~= b);
}

/// Folding updates sets each key to its last effect.
pub proof fn lemma_apply_ops_lookup(m: Map<Seq<char>, Seq<char>>, ops: Seq<UpdateOp>, k: Seq<char>)
    ensures
        lookup(apply_ops(m, ops), k) == after(ops_effect(ops, k), lookup(m, k)),
    decreases ops.len(),
{
    if ops.len() > 0 {
        lemma_apply_ops_lookup(m, ops.drop_last(), k);
    }
}

/// Replaying records sets each key to its last effect.
pub proof fn lemma_replay_lookup<P: Projection>(
    p: P,
    m: Map<Seq<char>, Seq<char>>,
    recs: Seq<(u64, P::Event)>,
    k: Seq<char>,
)
    ensures
        lookup(replay(p, m, recs), k) == after(recs_effect(p, recs, k), lookup(m, k)),
    decreases recs.len(),
{
    if recs.len() > 0 {
        lemma_replay_lookup(p, m, recs.drop_last(), k);
        lemma_apply_ops_lookup(replay(p, m, recs.drop_last()), p.updates(recs.last().1), k);
    }
}

/// Replaying two runs of records one after the other.
pub proof fn lemma_replay_concat<P: Projection>(
    p: P,
    m: Map<Seq<char>, Seq<char>>,
    a: Seq<(u64, P::Event)>,
    b: Seq<(u64, P::Event)>,
)
    ensures
        replay(p, m, a + b) == replay(p, replay(p, m, a), b),
    decreases b.len(),
{
    if b.len() == 0 {
        assert(a + b =~= a);
    } else {
        assert((a + b).drop_last() =~= a + b.drop_last());
        lemma_replay_concat(p, m, a, b.drop_last());
    }
}

/// The last effect in two runs of updates.
pub proof fn lemma_ops_effect_concat(a: Seq<UpdateOp>, b: Seq<UpdateOp>, k: Seq<char>)
    ensures
        ops_effect(a + b, k) == match ops_effect(b, k) {
            Some(x) => Some(x),
            None => ops_effect(a, k),
        },
    decreases b.len(),
{
    if b.len() == 0 {
        assert(a + b =~= a);
    } else {
        assert((a + b).drop_last() =~= a + b.drop_last());
        lemma_ops_effect_concat(a, b.drop_last(), k);
    }
}

/// The last effect in two runs of records.
pub proof fn lemma_recs_effect_concat<P: Projection>(
    p: P,
    a: Seq<(u64, P::Event)>,
    b: Seq<(u64, P::Event)>,
    k: Seq<char>,
)
    ensures
        recs_effect(p, a + b, k) == match recs_effect(p, b, k) {
            Some(x) => Some(x),
            None => recs_effect(p, a, k),
        },
    decreases b.len(),
{
    if b.len() == 0 {
        assert(a + b =~= a);
    } else {
        assert((a + b).drop_last() =~= a + b.drop_last());
        lemma_recs_effect_concat(p, a, b.drop_last(), k);
    }
}

/// Going back one update: the effect of `ops[j - 1..]` is that of `ops[j..]`,
/// or failing it that of `ops[j - 1]`.
pub proof fn lemma_ops_step_back(ops: Seq<UpdateOp>, j: int, k: Seq<char>)
    requires
        0 < j <= ops.len(),
    ensures
        ops_effect(ops.subrange(j - 1, ops.len() as int), k) == later(
            ops_effect(ops.subrange(j, ops.len() as int), k),
            op_effect(ops[j - 1], k),
        ),
{
    let one = seq![ops[j - 1]];
    let tail = ops.subrange(j, ops.len() as int);
    assert(ops.subrange(j - 1, ops.len() as int) =~= one + tail);
    lemma_ops_effect_concat(one, tail, k);
    assert(one.drop_last() =~= Seq::<UpdateOp>::empty());
    assert(ops_effect(Seq::<UpdateOp>::empty(), k) == None::<Option<Seq<char>>>);
}

/// Going back one record: the effect of `recs[i..hi]` is that of
/// `recs[i + 1..hi]`, or failing it that of the updates of `recs[i]`.
pub proof fn lemma_recs_step_back<P: Projection>(
    p: P,
    recs: Seq<(u64, P::Event)>,
    i: int,
    hi: int,
    k: Seq<char>,
)
    requires
        0 <= i < hi <= recs.len(),
    ensures
        recs_effect(p, recs.subrange(i, hi), k) == later(
            recs_effect(p, recs.subrange(i + 1, hi), k),
            ops_effect(p.updates(recs[i].1), k),
        ),
{
    let one = recs.subrange(i, i + 1);
    let tail = recs.subrange(i + 1, hi);
    assert(recs.subrange(i, hi) =~= one + tail);
    lemma_recs_effect_concat(p, one, tail, k);
    assert(one.drop_last() =~= Seq::<(u64, P::Event)>::empty());
    assert(one.last() == recs[i]);
    assert(recs_effect(p, Seq::<(u64, P::Event)>::empty(), k) == None::<Option<Seq<char>>>);
}

/// Going forward one record: the effect of `recs[lo..i + 1]` is that of the
/// updates of `recs[i]`, or failing it that of `recs[lo..i]`.
pub proof fn lemma_recs_step_forward<P: Projection>(
    p: P,
    recs: Seq<(u64, P::Event)>,
    lo: int,
    i: int,
    k: Seq<char>,
)
    requires
        0 <= lo <= i < recs.len(),
    ensures
        recs_effect(p, recs.subrange(lo, i + 1), k) == later(
            ops_effect(p.updates(recs[i].1), k),
            recs_effect(p, recs.subrange(lo, i), k),
        ),
{
    assert(recs.subrange(lo, i + 1).drop_last() =~= recs.subrange(lo, i));
}

/// Going forward one update.
pub proof fn lemma_ops_step_forward(ops: Seq<UpdateOp>, j: int, k: Seq<char>)
    requires
        0 <= j < ops.len(),
    ensures
        ops_effect(ops.take(j + 1), k) == later(op_effect(ops[j], k), ops_effect(ops.take(j), k)),
{
    assert(ops.take(j + 1).drop_last() =~= ops.take(j));
}

} // verus!
