//! A string-keyed map held as two parallel vectors with unique keys.
use vstd::prelude::*;

verus! {

/// A finite map from strings to strings. Its model is a `Map` over the
/// strings' character sequences.
pub struct KeyValueMap {
    keys: Vec<String>,
    values: Vec<String>,
}

impl KeyValueMap {
    /// The map's invariant: one value per key, and no key twice.
    pub closed spec fn wf(&self) -> bool {
        &&& self.keys@.len() == self.values@.len()
        &&& forall|i: int, j: int|
            0 <= i < j < self.keys@.len() ==> self.keys@[i]@ != self.keys@[j]@
    }

    spec fn has_at(&self, k: Seq<char>, i: int) -> bool {
        0 <= i < self.keys@.len() && self.keys@[i]@ == k
    }

    spec fn index_of(&self, k: Seq<char>) -> int {
        choose|i: int| self.has_at(k, i)
    }

    proof fn lemma_index_of(&self, k: Seq<char>, i: int)
        requires
            self.wf(),
            self.has_at(k, i),
        ensures
            self.index_of(k) == i,
    {
        let j = self.index_of(k);
        assert(self.has_at(k, j));
        if j < i {
            assert(self.keys@[j]@ != self.keys@[i]@);
        } else if i < j {
            assert(self.keys@[i]@ != self.keys@[j]@);
        }
    }

    /// An empty map.
    pub fn new() -> (r: Self)
        ensures
            r.wf(),
            r@ == Map::<Seq<char>, Seq<char>>::empty(),
    {
        let r = KeyValueMap { keys: Vec::new(), values: Vec::new() };
        assert(r@ =~= Map::<Seq<char>, Seq<char>>::empty());
        r
    }

    fn find(&self, key: &String) -> (r: Option<usize>)
        requires
            self.wf(),
        ensures
            match r {
                Some(i) => self.has_at(key@, i as int),
                None => !self@.contains_key(key@),
            },
    {
        let mut i: usize = 0;
        while i < self.keys.len()
            invariant
                self.wf(),
                i <= self.keys@.len(),
                forall|j: int| 0 <= j < i ==> self.keys@[j]@ != key@,
            decreases self.keys@.len() - i,
        {
            if self.keys[i] == *key {
                return Some(i);
            }
            i = i + 1;
        }
        None
    }

    /// Whether the map holds `key`.
    pub fn contains_key(&self, key: &String) -> (r: bool)
        requires
            self.wf(),
        ensures
            r == self@.contains_key(key@),
    {
        match self.find(key) {
            Some(i) => true,
            None => false,
        }
    }

    /// The value held for `key`, if any.
    pub fn get(&self, key: &String) -> (r: Option<&String>)
        requires
            self.wf(),
        ensures
            match r {
                Some(v) => self@.contains_key(key@) && self@[key@] == v@,
                None => !self@.contains_key(key@),
            },
    {
        match self.find(key) {
            Some(i) => {
                proof {
                    self.lemma_index_of(key@, i as int);
                }
                Some(&self.values[i])
            },
            None => None,
        }
    }

    /// Sets the value of `key`, replacing the one it had.
    pub fn insert(&mut self, key: String, value: String)
        requires
            old(self).wf(),
        ensures
            final(self).wf(),
            final(self)@ == old(self)@.insert(key@, value@),
    {
        let ghost k = key@;
        let ghost v = value@;
        match self.find(&key) {
            Some(i) => {
                self.values.set(i, value);
                proof {
                    assert forall|kk: Seq<char>| #[trigger]
                        self@.contains_key(kk) == old(self)@.insert(k, v).contains_key(kk) by {
                        if exists|j: int| old(self).has_at(kk, j) {
                            let j = choose|j: int| old(self).has_at(kk, j);
                            assert(self.has_at(kk, j));
                        }
                        if exists|j: int| self.has_at(kk, j) {
                            let j = choose|j: int| self.has_at(kk, j);
                            assert(old(self).has_at(kk, j));
                        }
                    }
                    assert forall|kk: Seq<char>| #[trigger] self@.contains_key(kk) implies self@[kk]
                        == old(self)@.insert(k, v)[kk] by {
                        let j = choose|j: int| self.has_at(kk, j);
                        self.lemma_index_of(kk, j);
                        old(self).lemma_index_of(kk, j);
                    }
                    assert(self@ =~= old(self)@.insert(k, v));
                }
            },
            None => {
                proof {
                    assert forall|a: int| 0 <= a < self.keys@.len() implies self.keys@[a]@ != k by {
                        if self.keys@[a]@ == k {
                            assert(self.has_at(k, a));
                        }
                    }
                }
                self.keys.push(key);
                self.values.push(value);
                proof {
                    let n = old(self).keys@.len() as int;
                    assert(self.has_at(k, n));
                    assert forall|kk: Seq<char>| #[trigger]
                        self@.contains_key(kk) == old(self)@.insert(k, v).contains_key(kk) by {
                        if exists|j: int| old(self).has_at(kk, j) {
                            let j = choose|j: int| old(self).has_at(kk, j);
                            assert(self.has_at(kk, j));
                        }
                        if exists|j: int| self.has_at(kk, j) {
                            let j = choose|j: int| self.has_at(kk, j);
                            if j < n {
                                assert(old(self).has_at(kk, j));
                            }
                        }
                    }
                    assert forall|kk: Seq<char>| #[trigger] self@.contains_key(kk) implies self@[kk]
                        == old(self)@.insert(k, v)[kk] by {
                        let j = choose|j: int| self.has_at(kk, j);
                        self.lemma_index_of(kk, j);
                        if j < n {
                            old(self).lemma_index_of(kk, j);
                        }
                    }
                    assert(self@ =~= old(self)@.insert(k, v));
                }
            },
        }
    }

    /// Drops `key` and its value, if the map holds it.
    pub fn remove(&mut self, key: &String)
        requires
            old(self).wf(),
        ensures
            final(self).wf(),
            final(self)@ == old(self)@.remove(key@),
    {
        let ghost k = key@;
        match self.find(key) {
            Some(i) => {
                let ghost n = old(self).keys@.len() as int;
                self.keys.swap_remove(i);
                self.values.swap_remove(i);
                proof {
                    // position `i` now holds what stood last, unless `i` was last
                    assert forall|a: int, b: int|
                        0 <= a < b < self.keys@.len() implies self.keys@[a]@
                        != self.keys@[b]@ by {
                        let oa = if a == i {
                            n - 1
                        } else {
                            a
                        };
                        let ob = if b == i {
                            n - 1
                        } else {
                            b
                        };
                        assert(self.keys@[a] == old(self).keys@[oa]);
                        assert(self.keys@[b] == old(self).keys@[ob]);
                    }
                    assert forall|kk: Seq<char>| #[trigger]
                        self@.contains_key(kk) == old(self)@.remove(k).contains_key(kk) by {
                        if exists|j: int| old(self).has_at(kk, j) && kk != k {
                            let j = choose|j: int| old(self).has_at(kk, j) && kk != k;
                            let nj = if j == n - 1 {
                                i as int
                            } else {
                                j
                            };
                            assert(j != i);
                            assert(self.has_at(kk, nj));
                        }
                        if exists|j: int| self.has_at(kk, j) {
                            let j = choose|j: int| self.has_at(kk, j);
                            let oj = if j == i {
                                n - 1
                            } else {
                                j
                            };
                            assert(old(self).has_at(kk, oj));
                            assert(oj != i);
                        }
                    }
                    assert forall|kk: Seq<char>| #[trigger] self@.contains_key(kk) implies self@[kk]
                        == old(self)@.remove(k)[kk] by {
                        let j = choose|j: int| self.has_at(kk, j);
                        self.lemma_index_of(kk, j);
                        let oj = if j == i {
                            n - 1
                        } else {
                            j
                        };
                        assert(old(self).has_at(kk, oj));
                        old(self).lemma_index_of(kk, oj);
                    }
                    assert(self@ =~= old(self)@.remove(k));
                }
            },
            None => {
                assert(old(self)@ =~= old(self)@.remove(k));
            },
        }
    }

    /// Drops every key.
    pub fn clear(&mut self)
        requires
            old(self).wf(),
        ensures
            final(self).wf(),
            final(self)@ == Map::<Seq<char>, Seq<char>>::empty(),
    {
        self.keys.clear();
        self.values.clear();
        assert(self@ =~= Map::<Seq<char>, Seq<char>>::empty());
    }

    /// A copy of the map.
    pub fn duplicate(&self) -> (r: Self)
        requires
            self.wf(),
        ensures
            r.wf(),
            r@ == self@,
    {
        let mut keys: Vec<String> = Vec::new();
        let mut values: Vec<String> = Vec::new();
        let mut i: usize = 0;
        while i < self.keys.len()
            invariant
                self.wf(),
                i <= self.keys@.len(),
                keys@.len() == i,
                values@.len() == i,
                forall|j: int| 0 <= j < i ==> #[trigger] keys@[j] == self.keys@[j],
                forall|j: int| 0 <= j < i ==> #[trigger] values@[j] == self.values@[j],
            decreases self.keys@.len() - i,
        {
            keys.push(self.keys[i].clone());
            values.push(self.values[i].clone());
            i = i + 1;
        }
        let r = KeyValueMap { keys, values };
        proof {
            assert(r.keys@ =~= self.keys@);
            assert(r.values@ =~= self.values@);
            assert forall|k: Seq<char>| #[trigger] r@.contains_key(k) == self@.contains_key(k) by {
                if exists|j: int| self.has_at(k, j) {
                    let j = choose|j: int| self.has_at(k, j);
                    assert(r.has_at(k, j));
                }
                if exists|j: int| r.has_at(k, j) {
                    let j = choose|j: int| r.has_at(k, j);
                    assert(self.has_at(k, j));
                }
            }
            assert forall|k: Seq<char>| #[trigger] r@.contains_key(k) implies r@[k] == self@[k] by {
                let j = choose|j: int| r.has_at(k, j);
                r.lemma_index_of(k, j);
                self.lemma_index_of(k, j);
            }
            assert(r@ =~= self@);
        }
        r
    }

    /// Whether the map holds no key.
    pub fn is_empty(&self) -> (r: bool)
        requires
            self.wf(),
        ensures
            r == (self@ == Map::<Seq<char>, Seq<char>>::empty()),
    {
        if self.keys.len() == 0 {
            assert(self@ =~= Map::<Seq<char>, Seq<char>>::empty());
            true
        } else {
            assert(self.has_at(self.keys@[0]@, 0));
            assert(self@.contains_key(self.keys@[0]@));
            false
        }
    }

    /// The number of keys.
    pub fn len(&self) -> (r: usize)
        requires
            self.wf(),
        ensures
            r == self@.dom().len(),
    {
        proof {
            self.lemma_len();
        }
        self.keys.len()
    }

    proof fn lemma_len(&self)
        requires
            self.wf(),
        ensures
            self@.dom().len() == self.keys@.len(),
    {
        let ks = self.keys@.map_values(|s: String| s@);
        assert forall|i: int, j: int| 0 <= i < j < ks.len() implies ks[i] != ks[j] by {}
        ks.unique_seq_to_set();
        assert(self@.dom() =~= ks.to_set()) by {
            assert forall|k: Seq<char>| #[trigger] self@.dom().contains(k) implies ks.to_set().contains(k) by {
                let j = choose|j: int| self.has_at(k, j);
                assert(ks[j] == k);
            }
            assert forall|k: Seq<char>| #[trigger] ks.to_set().contains(k) implies self@.dom().contains(k) by {
                let j = choose|j: int| 0 <= j < ks.len() && ks[j] == k;
                assert(self.has_at(k, j));
            }
        }
    }

    /// Every key with its value, each key once.
    pub fn entries(&self) -> (r: Vec<(String, String)>)
        requires
            self.wf(),
        ensures
            r@.len() == self@.dom().len(),
            forall|i: int|
                0 <= i < r@.len() ==> self@.contains_key(#[trigger] r@[i].0@) && self@[r@[i].0@]
                    == r@[i].1@,
            forall|i: int, j: int| 0 <= i < j < r@.len() ==> r@[i].0@ != r@[j].0@,
            forall|k: Seq<char>|
                #[trigger] self@.contains_key(k) ==> exists|i: int|
                    0 <= i < r@.len() && r@[i].0@ == k,
    {
        proof {
            self.lemma_len();
        }
        let mut r: Vec<(String, String)> = Vec::new();
        let mut i: usize = 0;
        while i < self.keys.len()
            invariant
                self.wf(),
                i <= self.keys@.len(),
                r@.len() == i,
                forall|j: int| 0 <= j < i ==> #[trigger] r@[j].0@ == self.keys@[j]@,
                forall|j: int| 0 <= j < i ==> #[trigger] r@[j].1@ == self.values@[j]@,
            decreases self.keys@.len() - i,
        {
            r.push((self.keys[i].clone(), self.values[i].clone()));
            i = i + 1;
        }
        proof {
            assert forall|j: int|
                0 <= j < r@.len() implies self@.contains_key(#[trigger] r@[j].0@) && self@[r@[j].0@]
                == r@[j].1@ by {
                assert(self.has_at(r@[j].0@, j));
                self.lemma_index_of(r@[j].0@, j);
            }
            assert forall|k: Seq<char>| #[trigger] self@.contains_key(k) implies exists|i: int|
                0 <= i < r@.len() && r@[i].0@ == k by {
                let j = choose|j: int| self.has_at(k, j);
                assert(r@[j].0@ == k);
            }
        }
        r
    }
}

impl View for KeyValueMap {
    type V = Map<Seq<char>, Seq<char>>;

    /// What the map holds.
    closed spec fn view(&self) -> Map<Seq<char>, Seq<char>> {
        Map::new(
            |k: Seq<char>| exists|i: int| self.has_at(k, i),
            |k: Seq<char>| self.values@[self.index_of(k)]@,
        )
    }
}

} // verus!
