//! A temporal key/value index: a projection of a view's events that answers
//! queries at any seq, behind, at or ahead of its own watermark.
use vstd::prelude::*;

use crate::kv_map::KeyValueMap;
use crate::scan::{
    le_count, lemma_le_count, lemma_le_count_monotonic, seqs_nondecreasing, seqs_positive,
};
use crate::update::{
    after, apply_op, apply_ops, later, lemma_lookup_ext, lemma_ops_effect_concat,
    lemma_ops_step_back, lemma_ops_step_forward, lemma_recs_effect_concat, lemma_recs_step_back,
    lemma_recs_step_forward, lemma_replay_concat, lemma_replay_lookup, lookup, op_effect,
    ops_effect, ops_view, recs_effect, replay, state_at, HashMapUpdate, Projection, UpdateOp,
};
use crate::{Index, LogView};

verus! {

/// A key/value projection of a view. `map` holds the state at `current_seq`;
/// the state at any other seq is computed from it and the view.
pub struct HashMapIndex<P: Projection> {
    current_seq: u64,
    to_assignment: P,
    map: KeyValueMap,
}

/// Applies one update to a map.
fn apply_update(map: &mut KeyValueMap, u: &HashMapUpdate)
    requires
        old(map).wf(),
    ensures
        final(map).wf(),
        final(map)@ == apply_op(old(map)@, u@),
{
    match u {
        HashMapUpdate::Insert { key, value } => {
            map.insert(key.clone(), value.clone());
        },
        HashMapUpdate::Remove { key } => {
            map.remove(key);
        },
        HashMapUpdate::Clear => {
            map.clear();
        },
    }
}

/// The model of an optional string.
pub open spec fn opt_view(o: Option<String>) -> Option<Seq<char>> {
    match o {
        Some(v) => Some(v@),
        None => None,
    }
}

/// The model of an effect found on a key.
pub open spec fn effect_view(e: Option<Option<String>>) -> Option<Option<Seq<char>>> {
    match e {
        Some(o) => Some(opt_view(o)),
        None => None,
    }
}

/// The effect of a single update on a key, as the update itself says it.
fn update_effect(u: &HashMapUpdate, key: &String) -> (r: Option<Option<String>>)
    ensures
        effect_view(r) == ops_effect(seq![u@], key@),
{
    let ghost ops = seq![u@];
    assert(ops.drop_last() =~= Seq::<UpdateOp>::empty());
    assert(ops_effect(Seq::<UpdateOp>::empty(), key@) == None::<Option<Seq<char>>>);
    match u {
        HashMapUpdate::Insert { key: k, value } => {
            if *k == *key {
                Some(Some(value.clone()))
            } else {
                None
            }
        },
        HashMapUpdate::Remove { key: k } => {
            if *k == *key {
                Some(None)
            } else {
                None
            }
        },
        HashMapUpdate::Clear => Some(None),
    }
}

/// The records in `(a, b]` of sorted records.
pub open spec fn window<E>(recs: Seq<(u64, E)>, a: u64, b: u64) -> Seq<(u64, E)> {
    recs.subrange(le_count(recs, a), le_count(recs, b))
}

/// The state at `b` is the state at `a` with the records of `(a, b]` replayed.
pub proof fn lemma_state_step<P: Projection>(p: P, recs: Seq<(u64, P::Event)>, a: u64, b: u64)
    requires
        seqs_nondecreasing(recs),
        a <= b,
    ensures
        state_at(p, recs, b) == replay(p, state_at(p, recs, a), window(recs, a, b)),
{
    lemma_le_count(recs, a);
    lemma_le_count(recs, b);
    lemma_le_count_monotonic(recs, a, b);
    let la = le_count(recs, a);
    let lb = le_count(recs, b);
    assert(recs.take(lb) =~= recs.take(la) + recs.subrange(la, lb));
    lemma_replay_concat(p, Map::empty(), recs.take(la), recs.subrange(la, lb));
}

impl<P: Projection> HashMapIndex<P> {
    /// The projection the index folds.
    pub closed spec fn projection(&self) -> P {
        self.to_assignment
    }

    /// An empty index at watermark 0.
    pub fn new(to_assignment: P) -> (r: Self)
        ensures
            r.projection() == to_assignment,
            r.watermark() == 0,
            forall|recs: Seq<(u64, P::Event)>|
                seqs_nondecreasing(recs) && seqs_positive(recs) ==> #[trigger] r.consistent(recs),
    {
        let r = HashMapIndex { current_seq: 0, to_assignment, map: KeyValueMap::new() };
        proof {
            assert forall|recs: Seq<(u64, P::Event)>|
                seqs_nondecreasing(recs) && seqs_positive(recs) implies #[trigger] r.consistent(
                recs,
            ) by {
                lemma_le_count(recs, 0);
                if le_count(recs, 0) > 0 {
                    assert(recs[0].0 >= 1);
                }
                assert(recs.take(0) =~= Seq::<(u64, P::Event)>::empty());
            }
        }
        r
    }

    /// Folds the updates of the records in `(from, to]` into `map`, in order.
    fn replay_window<S: LogView<Event = P::Event>>(
        &self,
        source: &S,
        map: &mut KeyValueMap,
        from: u64,
        to: u64,
    )
        requires
            source.wf(),
            from <= to,
            old(map).wf(),
        ensures
            final(map).wf(),
            final(map)@ == replay(self.to_assignment, old(map)@, window(source.records(), from, to)),
    {
        let ghost recs = source.records();
        let ghost p = self.to_assignment;
        let ghost m0 = map@;
        proof {
            source.lemma_records_sorted();
            lemma_le_count(recs, from);
            lemma_le_count(recs, to);
            lemma_le_count_monotonic(recs, from, to);
        }
        let ghost lo = le_count(recs, from);
        let ghost hi = le_count(recs, to);
        let mut c = source.scan(from, to);
        let ghost mut done: int = 0;
        loop
            invariant_except_break
                source.cursor_wf(&c),
                0 <= done <= hi - lo,
                source.remaining(&c) == recs.subrange(lo + done, hi),
            invariant
                source.wf(),
                recs == source.records(),
                p == self.to_assignment,
                0 <= lo <= hi <= recs.len(),
                map.wf(),
                map@ == replay(p, m0, recs.subrange(lo, lo + done)),
            ensures
                map@ == replay(p, m0, recs.subrange(lo, hi)),
            decreases hi - lo - done,
        {
            match source.next(&mut c) {
                None => {
                    break ;
                },
                Some((_, event)) => {
                    let ups = self.to_assignment.to_assignment(event);
                    let ghost mb = map@;
                    let mut j: usize = 0;
                    while j < ups.len()
                        invariant
                            j <= ups@.len(),
                            map.wf(),
                            map@ == apply_ops(mb, ops_view(ups@).take(j as int)),
                        decreases ups@.len() - j,
                    {
                        apply_update(map, &ups[j]);
                        proof {
                            assert(ops_view(ups@).take(j + 1).drop_last() =~= ops_view(ups@).take(
                                j as int,
                            ));
                        }
                        j = j + 1;
                    }
                    proof {
                        assert(ops_view(ups@).take(ups@.len() as int) =~= ops_view(ups@));
                        assert(*event == recs[lo + done].1);
                        let next = recs.subrange(lo, lo + done + 1);
                        assert(next.last() == recs[lo + done]);
                        assert(next.drop_last() =~= recs.subrange(lo, lo + done));
                        done = done + 1;
                    }
                },
            }
        }
    }

    /// The last effect on `key` among the records in `(from, to]`, found by
    /// scanning backward from `to`.
    fn find_effect<S: LogView<Event = P::Event>>(
        &self,
        source: &S,
        from: u64,
        to: u64,
        key: &String,
    ) -> (r: Option<Option<String>>)
        requires
            source.wf(),
            from <= to,
        ensures
            effect_view(r) == recs_effect(self.to_assignment, window(source.records(), from, to), key@),
    {
        let ghost recs = source.records();
        let ghost p = self.to_assignment;
        let ghost k = key@;
        proof {
            source.lemma_records_sorted();
            lemma_le_count(recs, from);
            lemma_le_count(recs, to);
            lemma_le_count_monotonic(recs, from, to);
        }
        let ghost lo = le_count(recs, from);
        let ghost hi = le_count(recs, to);
        let mut c = source.scan(from, to);
        let ghost mut done: int = 0;
        loop
            invariant
                source.wf(),
                recs == source.records(),
                p == self.to_assignment,
                k == key@,
                lo == le_count(recs, from),
                hi == le_count(recs, to),
                0 <= lo <= hi <= recs.len(),
                source.cursor_wf(&c),
                0 <= done <= hi - lo,
                source.remaining(&c) == recs.subrange(lo, hi - done),
                recs_effect(p, recs.subrange(hi - done, hi), k) == None::<Option<Seq<char>>>,
            decreases hi - lo - done,
        {
            match source.next_back(&mut c) {
                None => {
                    proof {
                        assert(recs.subrange(lo, hi) =~= recs.subrange(hi - done, hi));
                    }
                    return None;
                },
                Some((_, event)) => {
                    let ghost i = hi - done - 1;
                    assert(*event == recs[i].1);
                    let ups = self.to_assignment.to_assignment(event);
                    let ghost ops = ops_view(ups@);
                    let mut j: usize = ups.len();
                    while j > 0
                        invariant
                            j <= ups@.len(),
                            ops == ops_view(ups@),
                            ops == p.updates(recs[i].1),
                            p == self.to_assignment,
                            recs == source.records(),
                            k == key@,
                            lo == le_count(recs, from),
                            hi == le_count(recs, to),
                            i == hi - done - 1,
                            0 <= lo <= i < hi <= recs.len(),
                            recs_effect(p, recs.subrange(hi - done, hi), k) == None::<
                                Option<Seq<char>>,
                            >,
                            ops_effect(ops.subrange(j as int, ops.len() as int), k) == None::<
                                Option<Seq<char>>,
                            >,
                        decreases j,
                    {
                        let e = update_effect(&ups[j - 1], key);
                        proof {
                            let tail = ops.subrange(j as int, ops.len() as int);
                            assert(ops.subrange(j - 1, ops.len() as int) =~= seq![ops[j - 1]]
                                + tail);
                            lemma_ops_effect_concat(seq![ops[j - 1]], tail, k);
                        }
                        if e.is_some() {
                            proof {
                                assert(ops =~= ops.take(j - 1) + ops.subrange(
                                    j - 1,
                                    ops.len() as int,
                                ));
                                lemma_ops_effect_concat(
                                    ops.take(j - 1),
                                    ops.subrange(j - 1, ops.len() as int),
                                    k,
                                );
                                let one = recs.subrange(i, i + 1);
                                assert(one.drop_last() =~= Seq::<(u64, P::Event)>::empty());
                                assert(one.last() == recs[i]);
                                let sfx = recs.subrange(hi - done, hi);
                                assert(recs.subrange(i, hi) =~= one + sfx);
                                lemma_recs_effect_concat(p, one, sfx, k);
                                assert(recs.subrange(lo, hi) =~= recs.subrange(lo, i) + recs.subrange(
                                    i,
                                    hi,
                                ));
                                lemma_recs_effect_concat(
                                    p,
                                    recs.subrange(lo, i),
                                    recs.subrange(i, hi),
                                    k,
                                );
                            }
                            return e;
                        }
                        j = j - 1;
                    }
                    proof {
                        assert(ops.subrange(0, ops.len() as int) =~= ops);
                        let one = recs.subrange(i, i + 1);
                        assert(one.drop_last() =~= Seq::<(u64, P::Event)>::empty());
                        assert(one.last() == recs[i]);
                        assert(recs_effect(p, Seq::<(u64, P::Event)>::empty(), k) == None::<
                            Option<Seq<char>>,
                        >);
                        let sfx = recs.subrange(hi - done, hi);
                        assert(recs.subrange(i, hi) =~= one + sfx);
                        lemma_recs_effect_concat(p, one, sfx, k);
                        done = done + 1;
                    }
                },
            }
        }
    }

    /// The value of `key` at `seq`.
    pub fn get<S: LogView<Event = P::Event>>(&self, source: &S, seq: u64, key: &String) -> (r:
        Option<String>)
        requires
            source.wf(),
            self.consistent(source.records()),
        ensures
            opt_view(r) == lookup(state_at(self.projection(), source.records(), seq), key@),
    {
        let ghost recs = source.records();
        let ghost p = self.to_assignment;
        proof {
            source.lemma_records_sorted();
        }
        if seq >= self.current_seq {
            proof {
                lemma_state_step(p, recs, self.current_seq, seq);
                lemma_replay_lookup(
                    p,
                    state_at(p, recs, self.current_seq),
                    window(recs, self.current_seq, seq),
                    key@,
                );
            }
            match self.find_effect(source, self.current_seq, seq, key) {
                Some(v) => v,
                None => self.current_value(key),
            }
        } else {
            proof {
                lemma_state_step(p, recs, seq, self.current_seq);
                lemma_replay_lookup(
                    p,
                    state_at(p, recs, seq),
                    window(recs, seq, self.current_seq),
                    key@,
                );
            }
            match self.find_effect(source, seq, self.current_seq, key) {
                None => self.current_value(key),
                Some(_) => {
                    proof {
                        lemma_le_count(recs, 0);
                        if le_count(recs, 0) > 0 {
                            assert(recs[0].0 >= 1);
                        }
                        lemma_replay_lookup(p, Map::empty(), window(recs, 0, seq), key@);
                    }
                    match self.find_effect(source, 0, seq, key) {
                        Some(v) => v,
                        None => None,
                    }
                },
            }
        }
    }

    /// The value of `key` at the watermark.
    fn current_value(&self, key: &String) -> (r: Option<String>)
        requires
            self.map.wf(),
        ensures
            opt_view(r) == lookup(self.map@, key@),
    {
        match self.map.get(key) {
            Some(v) => Some(v.clone()),
            None => None,
        }
    }

    /// The state at `seq`: the updates of every record with seq up to `seq`,
    /// folded in order from the empty map. At or ahead of the watermark the
    /// records after it are replayed onto a copy of the map; behind it the map
    /// is rewound.
    pub fn get_all<S: LogView<Event = P::Event>>(&self, source: &S, seq: u64) -> (r: KeyValueMap)
        requires
            source.wf(),
            self.consistent(source.records()),
        ensures
            r.wf(),
            r@ == state_at(self.projection(), source.records(), seq),
    {
        proof {
            source.lemma_records_sorted();
        }
        if seq >= self.current_seq {
            let mut result = self.map.duplicate();
            self.replay_window(source, &mut result, self.current_seq, seq);
            proof {
                lemma_state_step(self.to_assignment, source.records(), self.current_seq, seq);
            }
            result
        } else {
            self.rewind_all(source, seq)
        }
    }

    /// The state at a seq behind the watermark. If a clear happened since,
    /// nothing of the map can be kept and the state is rebuilt; otherwise only
    /// the keys touched since are looked up again.
    fn rewind_all<S: LogView<Event = P::Event>>(&self, source: &S, seq: u64) -> (r: KeyValueMap)
        requires
            source.wf(),
            self.consistent(source.records()),
            seq < self.current_seq,
        ensures
            r.wf(),
            r@ == state_at(self.projection(), source.records(), seq),
    {
        let (touched, cleared) = self.touched_keys(source, seq, self.current_seq);
        if cleared {
            self.rebuild(source, seq)
        } else {
            self.restore(source, seq, &touched)
        }
    }

    /// The keys that the records in `(from, to]` touch, and whether one of
    /// them clears the map (in which case the keys found so far are returned).
    fn touched_keys<S: LogView<Event = P::Event>>(&self, source: &S, from: u64, to: u64) -> (r: (
        KeyValueMap,
        bool,
    ))
        requires
            source.wf(),
            from <= to,
        ensures
            r.0.wf(),
            !r.1 ==> forall|k: Seq<char>|
                #[trigger] recs_effect(self.to_assignment, window(source.records(), from, to), k)
                    is Some ==> r.0@.contains_key(k),
    {
        let ghost recs = source.records();
        let ghost p = self.to_assignment;
        proof {
            source.lemma_records_sorted();
            lemma_le_count(recs, from);
            lemma_le_count(recs, to);
            lemma_le_count_monotonic(recs, from, to);
        }
        let ghost lo = le_count(recs, from);
        let ghost hi = le_count(recs, to);
        let mut touched = KeyValueMap::new();
        let mut c = source.scan(from, to);
        let ghost mut done: int = 0;
        proof {
            assert(recs.subrange(lo, lo) =~= Seq::<(u64, P::Event)>::empty());
        }
        loop
            invariant
                source.wf(),
                recs == source.records(),
                p == self.to_assignment,
                lo == le_count(recs, from),
                hi == le_count(recs, to),
                0 <= lo <= hi <= recs.len(),
                source.cursor_wf(&c),
                0 <= done <= hi - lo,
                source.remaining(&c) == recs.subrange(lo + done, hi),
                touched.wf(),
                forall|k: Seq<char>|
                    #[trigger] recs_effect(p, recs.subrange(lo, lo + done), k) is Some
                        ==> touched@.contains_key(k),
            decreases hi - lo - done,
        {
            match source.next(&mut c) {
                None => {
                    return (touched, false);
                },
                Some((_, event)) => {
                    let ghost i = lo + done;
                    assert(*event == recs[i].1);
                    let ups = self.to_assignment.to_assignment(event);
                    let ghost ops = ops_view(ups@);
                    let mut j: usize = 0;
                    while j < ups.len()
                        invariant
                            j <= ups@.len(),
                            ops == ops_view(ups@),
                            touched.wf(),
                            forall|k: Seq<char>|
                                (#[trigger] ops_effect(ops.take(j as int), k) is Some || recs_effect(
                                    p,
                                    recs.subrange(lo, i),
                                    k,
                                ) is Some) ==> touched@.contains_key(k),
                        decreases ups@.len() - j,
                    {
                        proof {
                            assert forall|k: Seq<char>| #[trigger]
                                ops_effect(ops.take(j + 1), k) == later(
                                    op_effect(ops[j as int], k),
                                    ops_effect(ops.take(j as int), k),
                                ) by {
                                lemma_ops_step_forward(ops, j as int, k);
                            }
                        }
                        match &ups[j] {
                            HashMapUpdate::Insert { key, .. } => {
                                touched.insert(key.clone(), String::new());
                            },
                            HashMapUpdate::Remove { key } => {
                                touched.insert(key.clone(), String::new());
                            },
                            HashMapUpdate::Clear => {
                                return (touched, true);
                            },
                        }
                        j = j + 1;
                    }
                    proof {
                        assert(ops.take(ops.len() as int) =~= ops);
                        assert forall|k: Seq<char>|
                            #[trigger] recs_effect(p, recs.subrange(lo, i + 1), k)
                                is Some implies touched@.contains_key(k) by {
                            lemma_recs_step_forward(p, recs, lo, i, k);
                        }
                        done = done + 1;
                    }
                },
            }
        }
    }

    /// The state at `seq` rebuilt from nothing, scanning back from `seq` to
    /// the most recent clear.
    fn rebuild<S: LogView<Event = P::Event>>(&self, source: &S, seq: u64) -> (r: KeyValueMap)
        requires
            source.wf(),
        ensures
            r.wf(),
            r@ == state_at(self.to_assignment, source.records(), seq),
    {
        let ghost recs = source.records();
        let ghost p = self.to_assignment;
        proof {
            source.lemma_records_sorted();
            lemma_state_from_zero(p, recs, seq);
        }
        let ghost lo = le_count(recs, 0);
        let ghost hi = le_count(recs, seq);
        let mut result = KeyValueMap::new();
        let mut removed = KeyValueMap::new();
        let mut c = source.scan(0, seq);
        let ghost mut done: int = 0;
        proof {
            assert(recs.subrange(hi, hi) =~= Seq::<(u64, P::Event)>::empty());
        }
        loop
            invariant
                source.wf(),
                recs == source.records(),
                p == self.to_assignment,
                lo == 0,
                hi == le_count(recs, seq),
                0 <= lo <= hi <= recs.len(),
                source.cursor_wf(&c),
                0 <= done <= hi - lo,
                source.remaining(&c) == recs.subrange(lo, hi - done),
                result.wf(),
                removed.wf(),
                forall|k: Seq<char>| #[trigger]
                    lookup(state_at(p, recs, seq), k) == after(
                        recs_effect(p, recs.subrange(lo, hi), k),
                        None,
                    ),
                forall|k: Seq<char>|
                    #![trigger recs_effect(p, recs.subrange(hi - done, hi), k)]
                    lookup(result@, k) == after(recs_effect(p, recs.subrange(hi - done, hi), k), None)
                        && (recs_effect(p, recs.subrange(hi - done, hi), k) is Some <==> (
                    result@.contains_key(k) || removed@.contains_key(k))),
            decreases hi - lo - done,
        {
            match source.next_back(&mut c) {
                None => {
                    proof {
                        assert(recs.subrange(lo, hi) =~= recs.subrange(hi - done, hi));
                        assert forall|k: Seq<char>| #[trigger]
                            lookup(result@, k) == lookup(state_at(p, recs, seq), k) by {
                            assert(recs_effect(p, recs.subrange(hi - done, hi), k) == recs_effect(
                                p,
                                recs.subrange(lo, hi),
                                k,
                            ));
                        }
                        lemma_lookup_ext(result@, state_at(p, recs, seq));
                    }
                    return result;
                },
                Some((_, event)) => {
                    let ghost i = hi - done - 1;
                    assert(*event == recs[i].1);
                    let ups = self.to_assignment.to_assignment(event);
                    let ghost ops = ops_view(ups@);
                    let ghost sfx = recs.subrange(hi - done, hi);
                    let mut j: usize = ups.len();
                    proof {
                        assert forall|k: Seq<char>| #[trigger]
                            ops_effect(ops.subrange(j as int, ops.len() as int), k) == None::<
                                Option<Seq<char>>,
                            > by {
                            assert(ops.subrange(j as int, ops.len() as int) =~= Seq::<
                                UpdateOp,
                            >::empty());
                        }
                    }
                    while j > 0
                        invariant
                            j <= ups@.len(),
                            ops == ops_view(ups@),
                            ops == p.updates(recs[i].1),
                            p == self.to_assignment,
                            recs == source.records(),
                            lo == 0,
                            hi == le_count(recs, seq),
                            i == hi - done - 1,
                            0 <= lo <= i < hi <= recs.len(),
                            sfx == recs.subrange(hi - done, hi),
                            result.wf(),
                            removed.wf(),
                            forall|k: Seq<char>| #[trigger]
                                lookup(state_at(p, recs, seq), k) == after(
                                    recs_effect(p, recs.subrange(lo, hi), k),
                                    None,
                                ),
                            forall|k: Seq<char>|
                                #![trigger ops_effect(ops.subrange(j as int, ops.len() as int), k)]
                                lookup(result@, k) == after(
                                    later(
                                        recs_effect(p, sfx, k),
                                        ops_effect(ops.subrange(j as int, ops.len() as int), k),
                                    ),
                                    None,
                                ) && (later(
                                    recs_effect(p, sfx, k),
                                    ops_effect(ops.subrange(j as int, ops.len() as int), k),
                                ) is Some <==> (result@.contains_key(k) || removed@.contains_key(
                                    k,
                                ))),
                        decreases j,
                    {
                        proof {
                            assert forall|k: Seq<char>| #[trigger]
                                ops_effect(ops.subrange(j - 1, ops.len() as int), k) == later(
                                    ops_effect(ops.subrange(j as int, ops.len() as int), k),
                                    op_effect(ops[j - 1], k),
                                ) by {
                                lemma_ops_step_back(ops, j as int, k);
                            }
                        }
                        match &ups[j - 1] {
                            HashMapUpdate::Insert { key, value } => {
                                if !result.contains_key(key) && !removed.contains_key(key) {
                                    result.insert(key.clone(), value.clone());
                                }
                            },
                            HashMapUpdate::Remove { key } => {
                                removed.insert(key.clone(), String::new());
                            },
                            HashMapUpdate::Clear => {
                                proof {
                                    assert forall|k: Seq<char>| #[trigger]
                                        lookup(result@, k) == lookup(state_at(p, recs, seq), k) by {
                                        self.lemma_clear_found(recs, lo, i, hi, done, ops, j as int, k);
                                    }
                                    lemma_lookup_ext(result@, state_at(p, recs, seq));
                                }
                                return result;
                            },
                        }
                        j = j - 1;
                    }
                    proof {
                        assert(ops.subrange(0, ops.len() as int) =~= ops);
                        assert forall|k: Seq<char>|
                            #![trigger recs_effect(p, recs.subrange(i, hi), k)]
                            recs_effect(p, recs.subrange(i, hi), k) == later(
                                recs_effect(p, sfx, k),
                                ops_effect(ops, k),
                            ) by {
                            lemma_recs_step_back(p, recs, i, hi, k);
                            assert(recs.subrange(i + 1, hi) == sfx);
                        }
                        done = done + 1;
                        assert forall|k: Seq<char>|
                            #![trigger recs_effect(p, recs.subrange(hi - done, hi), k)]
                            lookup(result@, k) == after(
                                recs_effect(p, recs.subrange(hi - done, hi), k),
                                None,
                            ) && (recs_effect(p, recs.subrange(hi - done, hi), k) is Some <==> (
                            result@.contains_key(k) || removed@.contains_key(k))) by {
                            assert(ops_effect(ops.subrange(0, ops.len() as int), k) == ops_effect(
                                ops,
                                k,
                            ));
                            assert(recs.subrange(i, hi) == recs.subrange(hi - done, hi));
                        }
                    }
                },
            }
        }
    }

    /// A clear at `ops[j - 1]` of `recs[i]` settles every key: the effect on
    /// the records in `(0, seq]` is what the scan after it has found, or absence.
    proof fn lemma_clear_found(
        &self,
        recs: Seq<(u64, P::Event)>,
        lo: int,
        i: int,
        hi: int,
        done: int,
        ops: Seq<UpdateOp>,
        j: int,
        k: Seq<char>,
    )
        requires
            0 <= lo <= i < hi <= recs.len(),
            i == hi - done - 1,
            ops == self.to_assignment.updates(recs[i].1),
            0 < j <= ops.len(),
            ops[j - 1] == UpdateOp::Clear,
        ensures
            after(recs_effect(self.to_assignment, recs.subrange(lo, hi), k), None) == after(
                later(
                    recs_effect(self.to_assignment, recs.subrange(hi - done, hi), k),
                    ops_effect(ops.subrange(j, ops.len() as int), k),
                ),
                None,
            ),
    {
        let p = self.to_assignment;
        lemma_ops_step_back(ops, j, k);
        assert(ops =~= ops.take(j - 1) + ops.subrange(j - 1, ops.len() as int));
        lemma_ops_effect_concat(ops.take(j - 1), ops.subrange(j - 1, ops.len() as int), k);
        lemma_recs_step_back(p, recs, i, hi, k);
        assert(recs.subrange(i + 1, hi) == recs.subrange(hi - done, hi));
        assert(recs.subrange(lo, hi) =~= recs.subrange(lo, i) + recs.subrange(i, hi));
        lemma_recs_effect_concat(p, recs.subrange(lo, i), recs.subrange(i, hi), k);
    }

    /// The state at `seq` restored from the state at the watermark: each key
    /// touched since `seq` is looked up by scanning back from `seq`.
    fn restore<S: LogView<Event = P::Event>>(&self, source: &S, seq: u64, touched: &KeyValueMap) -> (r:
        KeyValueMap)
        requires
            source.wf(),
            self.consistent(source.records()),
            seq < self.current_seq,
            touched.wf(),
            forall|k: Seq<char>|
                #[trigger] recs_effect(
                    self.to_assignment,
                    window(source.records(), seq, self.current_seq),
                    k,
                ) is Some ==> touched@.contains_key(k),
        ensures
            r.wf(),
            r@ == state_at(self.to_assignment, source.records(), seq),
    {
        let ghost recs = source.records();
        let ghost p = self.to_assignment;
        let ghost cur = self.current_seq;
        proof {
            source.lemma_records_sorted();
            lemma_state_from_zero(p, recs, seq);
            lemma_state_step(p, recs, seq, cur);
            assert forall|k: Seq<char>| !touched@.contains_key(k) implies #[trigger] lookup(
                self.map@,
                k,
            ) == lookup(state_at(p, recs, seq), k) by {
                lemma_replay_lookup(p, state_at(p, recs, seq), window(recs, seq, cur), k);
            }
        }
        let ghost lo = le_count(recs, 0);
        let ghost hi = le_count(recs, seq);
        let mut result = self.map.duplicate();
        let mut pending = touched.duplicate();
        let mut c = source.scan(0, seq);
        let ghost mut done: int = 0;
        proof {
            assert(recs.subrange(hi, hi) =~= Seq::<(u64, P::Event)>::empty());
        }
        loop
            invariant
                source.wf(),
                recs == source.records(),
                p == self.to_assignment,
                lo == 0,
                hi == le_count(recs, seq),
                0 <= lo <= hi <= recs.len(),
                source.cursor_wf(&c),
                0 <= done <= hi - lo,
                source.remaining(&c) == recs.subrange(lo, hi - done),
                result.wf(),
                pending.wf(),
                touched.wf(),
                forall|k: Seq<char>| #[trigger]
                    lookup(state_at(p, recs, seq), k) == after(
                        recs_effect(p, recs.subrange(lo, hi), k),
                        None,
                    ),
                forall|k: Seq<char>|
                    #![trigger recs_effect(p, recs.subrange(hi - done, hi), k)]
                    restoring(
                        result@,
                        pending@,
                        touched@,
                        state_at(p, recs, seq),
                        recs_effect(p, recs.subrange(hi - done, hi), k),
                        k,
                    ),
            decreases hi - lo - done,
        {
            if pending.is_empty() {
                proof {
                    assert forall|k: Seq<char>| #[trigger]
                        lookup(result@, k) == lookup(state_at(p, recs, seq), k) by {
                        assert(restoring(
                            result@,
                            pending@,
                            touched@,
                            state_at(p, recs, seq),
                            recs_effect(p, recs.subrange(hi - done, hi), k),
                            k,
                        ));
                        assert(recs.subrange(lo, hi) =~= recs.subrange(lo, hi - done)
                            + recs.subrange(hi - done, hi));
                        lemma_recs_effect_concat(
                            p,
                            recs.subrange(lo, hi - done),
                            recs.subrange(hi - done, hi),
                            k,
                        );
                    }
                    lemma_lookup_ext(result@, state_at(p, recs, seq));
                }
                return result;
            }
            match source.next_back(&mut c) {
                None => {
                    let ghost before = result@;
                    remove_all(&mut result, &pending);
                    proof {
                        assert(recs.subrange(lo, hi) =~= recs.subrange(hi - done, hi));
                        assert forall|k: Seq<char>| #[trigger]
                            lookup(result@, k) == lookup(state_at(p, recs, seq), k) by {
                            assert(restoring(
                                before,
                                pending@,
                                touched@,
                                state_at(p, recs, seq),
                                recs_effect(p, recs.subrange(hi - done, hi), k),
                                k,
                            ));
                        }
                        lemma_lookup_ext(result@, state_at(p, recs, seq));
                    }
                    return result;
                },
                Some((_, event)) => {
                    let ghost i = hi - done - 1;
                    assert(*event == recs[i].1);
                    let ups = self.to_assignment.to_assignment(event);
                    let ghost ops = ops_view(ups@);
                    let ghost sfx = recs.subrange(hi - done, hi);
                    let ghost target = state_at(p, recs, seq);
                    let mut j: usize = ups.len();
                    proof {
                        assert forall|k: Seq<char>| #[trigger]
                            ops_effect(ops.subrange(j as int, ops.len() as int), k) == None::<
                                Option<Seq<char>>,
                            > by {
                            assert(ops.subrange(j as int, ops.len() as int) =~= Seq::<
                                UpdateOp,
                            >::empty());
                        }
                    }
                    while j > 0
                        invariant
                            j <= ups@.len(),
                            ops == ops_view(ups@),
                            ops == p.updates(recs[i].1),
                            p == self.to_assignment,
                            recs == source.records(),
                            target == state_at(p, recs, seq),
                            lo == 0,
                            hi == le_count(recs, seq),
                            i == hi - done - 1,
                            0 <= lo <= i < hi <= recs.len(),
                            sfx == recs.subrange(hi - done, hi),
                            result.wf(),
                            pending.wf(),
                            touched.wf(),
                            forall|k: Seq<char>| #[trigger]
                                lookup(target, k) == after(
                                    recs_effect(p, recs.subrange(lo, hi), k),
                                    None,
                                ),
                            forall|k: Seq<char>|
                                #![trigger ops_effect(ops.subrange(j as int, ops.len() as int), k)]
                                restoring(
                                    result@,
                                    pending@,
                                    touched@,
                                    target,
                                    later(
                                        recs_effect(p, sfx, k),
                                        ops_effect(ops.subrange(j as int, ops.len() as int), k),
                                    ),
                                    k,
                                ),
                        decreases j,
                    {
                        proof {
                            assert forall|k: Seq<char>| #[trigger]
                                ops_effect(ops.subrange(j - 1, ops.len() as int), k) == later(
                                    ops_effect(ops.subrange(j as int, ops.len() as int), k),
                                    op_effect(ops[j - 1], k),
                                ) by {
                                lemma_ops_step_back(ops, j as int, k);
                            }
                        }
                        let ghost r0 = result@;
                        let ghost q0 = pending@;
                        match &ups[j - 1] {
                            HashMapUpdate::Insert { key, value } => {
                                if pending.contains_key(key) {
                                    pending.remove(key);
                                    result.insert(key.clone(), value.clone());
                                }
                            },
                            HashMapUpdate::Remove { key } => {
                                if pending.contains_key(key) {
                                    pending.remove(key);
                                    result.remove(key);
                                }
                            },
                            HashMapUpdate::Clear => {
                                remove_all(&mut result, &pending);
                                proof {
                                    assert forall|k: Seq<char>| #[trigger]
                                        lookup(result@, k) == lookup(target, k) by {
                                        assert(restoring(
                                            r0,
                                            q0,
                                            touched@,
                                            target,
                                            later(
                                                recs_effect(p, sfx, k),
                                                ops_effect(
                                                    ops.subrange(j as int, ops.len() as int),
                                                    k,
                                                ),
                                            ),
                                            k,
                                        ));
                                        self.lemma_clear_found(
                                            recs,
                                            lo,
                                            i,
                                            hi,
                                            done,
                                            ops,
                                            j as int,
                                            k,
                                        );
                                    }
                                    lemma_lookup_ext(result@, target);
                                }
                                return result;
                            },
                        }
                        proof {
                            assert forall|k: Seq<char>|
                                #![trigger ops_effect(ops.subrange(j - 1, ops.len() as int), k)]
                                restoring(
                                    result@,
                                    pending@,
                                    touched@,
                                    target,
                                    later(
                                        recs_effect(p, sfx, k),
                                        ops_effect(ops.subrange(j - 1, ops.len() as int), k),
                                    ),
                                    k,
                                ) by {
                                assert(restoring(
                                    r0,
                                    q0,
                                    touched@,
                                    target,
                                    later(
                                        recs_effect(p, sfx, k),
                                        ops_effect(ops.subrange(j as int, ops.len() as int), k),
                                    ),
                                    k,
                                ));
                            }
                        }
                        j = j - 1;
                    }
                    proof {
                        assert(ops.subrange(0, ops.len() as int) =~= ops);
                        assert forall|k: Seq<char>|
                            #![trigger recs_effect(p, recs.subrange(i, hi), k)]
                            recs_effect(p, recs.subrange(i, hi), k) == later(
                                recs_effect(p, sfx, k),
                                ops_effect(ops, k),
                            ) by {
                            lemma_recs_step_back(p, recs, i, hi, k);
                            assert(recs.subrange(i + 1, hi) == sfx);
                        }
                        done = done + 1;
                        assert forall|k: Seq<char>|
                            #![trigger recs_effect(p, recs.subrange(hi - done, hi), k)]
                            restoring(
                                result@,
                                pending@,
                                touched@,
                                target,
                                recs_effect(p, recs.subrange(hi - done, hi), k),
                                k,
                            ) by {
                            assert(ops_effect(ops.subrange(0, ops.len() as int), k) == ops_effect(
                                ops,
                                k,
                            ));
                            assert(recs.subrange(i, hi) == recs.subrange(hi - done, hi));
                        }
                    }
                },
            }
        }
    }
}

/// Where the restore stands on key `k`, given the effect `e` that the backward
/// scan has found on it so far: keys not touched since `seq` keep their value at
/// the watermark, which is their value at `seq`; touched keys still pending have
/// no effect found yet; the others hold the effect found.
spec fn restoring(
    result: Map<Seq<char>, Seq<char>>,
    pending: Map<Seq<char>, Seq<char>>,
    touched: Map<Seq<char>, Seq<char>>,
    target: Map<Seq<char>, Seq<char>>,
    e: Option<Option<Seq<char>>>,
    k: Seq<char>,
) -> bool {
    &&& !touched.contains_key(k) ==> lookup(result, k) == lookup(target, k) && !pending.contains_key(
        k,
    )
    &&& touched.contains_key(k) && !pending.contains_key(k) ==> e is Some && lookup(result, k)
        == after(e, None)
    &&& pending.contains_key(k) ==> touched.contains_key(k) && e is None
}

/// Drops every key of `keys` from `map`.
fn remove_all(map: &mut KeyValueMap, keys: &KeyValueMap)
    requires
        old(map).wf(),
        keys.wf(),
    ensures
        final(map).wf(),
        forall|k: Seq<char>| #[trigger]
            lookup(final(map)@, k) == if keys@.contains_key(k) {
                None
            } else {
                lookup(old(map)@, k)
            },
{
    let ks = keys.entries();
    let mut i: usize = 0;
    while i < ks.len()
        invariant
            map.wf(),
            keys.wf(),
            i <= ks@.len(),
            forall|t: int|
                0 <= t < ks@.len() ==> keys@.contains_key(#[trigger] ks@[t].0@),
            forall|k: Seq<char>|
                #[trigger] keys@.contains_key(k) ==> exists|t: int| 0 <= t < ks@.len() && ks@[t].0@ == k,
            forall|k: Seq<char>| #[trigger]
                lookup(map@, k) == if exists|t: int| 0 <= t < i && ks@[t].0@ == k {
                    None
                } else {
                    lookup(old(map)@, k)
                },
        decreases ks@.len() - i,
    {
        let ghost before = map@;
        map.remove(&ks[i].0);
        proof {
            assert forall|k: Seq<char>| #[trigger]
                lookup(map@, k) == if exists|t: int| 0 <= t < i + 1 && ks@[t].0@ == k {
                    None
                } else {
                    lookup(old(map)@, k)
                } by {
                assert(lookup(before, k) == if exists|t: int| 0 <= t < i && ks@[t].0@ == k {
                    None
                } else {
                    lookup(old(map)@, k)
                });
                if k == ks@[i as int].0@ {
                    assert(exists|t: int| 0 <= t < i + 1 && ks@[t].0@ == k);
                } else if exists|t: int| 0 <= t < i + 1 && ks@[t].0@ == k {
                    let t = choose|t: int| 0 <= t < i + 1 && ks@[t].0@ == k;
                    assert(t < i);
                }
            }
        }
        i = i + 1;
    }
    proof {
        assert forall|k: Seq<char>| #[trigger]
            lookup(map@, k) == if keys@.contains_key(k) {
                None
            } else {
                lookup(old(map)@, k)
            } by {
            assert(lookup(map@, k) == if exists|t: int| 0 <= t < i && ks@[t].0@ == k {
                None
            } else {
                lookup(old(map)@, k)
            });
            if exists|t: int| 0 <= t < i && ks@[t].0@ == k {
                let t = choose|t: int| 0 <= t < i && ks@[t].0@ == k;
                assert(keys@.contains_key(ks@[t].0@));
            }
            if keys@.contains_key(k) {
                let t = choose|t: int| 0 <= t < ks@.len() && ks@[t].0@ == k;
                assert(0 <= t < i && ks@[t].0@ == k);
            }
        }
    }
}

/// Records above `s` appended to others do not move the count of those up to `s`.
proof fn lemma_le_count_extend<E>(recs: Seq<(u64, E)>, more: Seq<(u64, E)>, s: u64)
    requires
        forall|i: int| 0 <= i < more.len() ==> #[trigger] more[i].0 > s,
    ensures
        le_count(recs + more, s) == le_count(recs, s),
    decreases more.len(),
{
    if more.len() > 0 {
        assert((recs + more).drop_last() =~= recs + more.drop_last());
        assert(more.last().0 > s);
        lemma_le_count_extend(recs, more.drop_last(), s);
    } else {
        assert(recs + more =~= recs);
    }
}

proof fn lemma_le_count_bound<E>(recs: Seq<(u64, E)>, s: u64)
    ensures
        0 <= le_count(recs, s) <= recs.len(),
    decreases recs.len(),
{
    if recs.len() > 0 {
        lemma_le_count_bound(recs.drop_last(), s);
    }
}

/// The state at `seq` is the last effect, on each key, of the records in `(0, seq]`.
proof fn lemma_state_from_zero<P: Projection>(p: P, recs: Seq<(u64, P::Event)>, seq: u64)
    requires
        seqs_nondecreasing(recs),
        seqs_positive(recs),
    ensures
        le_count(recs, 0) == 0,
        0 <= le_count(recs, seq) <= recs.len(),
        forall|k: Seq<char>| #[trigger]
            lookup(state_at(p, recs, seq), k) == after(
                recs_effect(p, recs.subrange(0, le_count(recs, seq)), k),
                None,
            ),
{
    lemma_le_count(recs, 0);
    lemma_le_count(recs, seq);
    if le_count(recs, 0) > 0 {
        assert(recs[0].0 >= 1);
    }
    let n = le_count(recs, seq);
    assert(recs.take(n) =~= recs.subrange(0, n));
    assert forall|k: Seq<char>| #[trigger]
        lookup(state_at(p, recs, seq), k) == after(recs_effect(p, recs.subrange(0, n), k), None) by {
        lemma_replay_lookup(p, Map::empty(), recs.subrange(0, n), k);
    }
}

impl<P: Projection> Index for HashMapIndex<P> {
    type Event = P::Event;

    type Config = P;

    open spec fn config(&self) -> P {
        self.projection()
    }

    closed spec fn watermark(&self) -> u64 {
        self.current_seq
    }

    closed spec fn consistent(&self, recs: Seq<(u64, P::Event)>) -> bool {
        &&& self.map.wf()
        &&& self.map@ == state_at(self.to_assignment, recs, self.current_seq)
    }

    proof fn lemma_extend(&self, recs: Seq<(u64, P::Event)>, more: Seq<(u64, P::Event)>) {
        lemma_le_count_extend(recs, more, self.current_seq);
        lemma_le_count_bound(recs, self.current_seq);
        let n = le_count(recs, self.current_seq);
        assert((recs + more).take(n) =~= recs.take(n));
    }

    fn update<S: LogView<Event = P::Event>>(&mut self, source: &S, seq: u64) {
        if seq > self.current_seq {
            proof {
                source.lemma_records_sorted();
                lemma_state_step(self.to_assignment, source.records(), self.current_seq, seq);
            }
            let mut map = KeyValueMap::new();
            std::mem::swap(&mut map, &mut self.map);
            self.replay_window(source, &mut map, self.current_seq, seq);
            self.map = map;
            self.current_seq = seq;
        }
    }

    fn get_current_seq(&self) -> (r: u64) {
        self.current_seq
    }
}

} // verus!
