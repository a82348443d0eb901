use vstd::prelude::*;

verus! {

/// An association map from `u64` keys to values, backed by a vector of
/// key-value pairs whose keys are pairwise distinct. Iteration order is the
/// storage order, which keeps every walk over a store deterministic.
#[derive(Debug)]
pub struct KvMap<V> {
    pairs: Vec<(u64, V)>,
}

impl<V> KvMap<V> {
    /// The pairs held, in storage order.
    pub closed spec fn entries(self) -> Seq<(u64, V)> {
        self.pairs@
    }

    /// Keys are pairwise distinct.
    pub open spec fn wf(self) -> bool {
        forall|i: int, j: int|
            0 <= i < j < self.entries().len() ==> (#[trigger] self.entries()[i]).0 != (
            #[trigger] self.entries()[j]).0
    }

    pub open spec fn contains_key(self, k: u64) -> bool {
        exists|i: int| 0 <= i < self.entries().len() && (#[trigger] self.entries()[i]).0 == k
    }

    pub open spec fn index_of(self, k: u64) -> int {
        choose|i: int| 0 <= i < self.entries().len() && (#[trigger] self.entries()[i]).0 == k
    }

    pub open spec fn spec_get(self, k: u64) -> Option<V> {
        if self.contains_key(k) {
            Some(self.entries()[self.index_of(k)].1)
        } else {
            None
        }
    }

    pub open spec fn spec_len(self) -> nat {
        self.entries().len()
    }

    /// A pair at position `i` with key `k` is the pair that `spec_get` yields.
    pub proof fn lemma_at(self, k: u64, i: int)
        requires
            self.wf(),
            0 <= i < self.entries().len(),
            self.entries()[i].0 == k,
        ensures
            self.contains_key(k),
            self.index_of(k) == i,
            self.spec_get(k) == Some(self.entries()[i].1),
    {
        assert(self.contains_key(k));
        let j = self.index_of(k);
        assert(0 <= j < self.entries().len() && self.entries()[j].0 == k);
        if i < j {
            assert(self.entries()[i].0 != self.entries()[j].0);
        } else if j < i {
            assert(self.entries()[j].0 != self.entries()[i].0);
        }
    }

    pub fn new() -> (r: Self)
        ensures
            r.wf(),
            r.spec_len() == 0,
            forall|k: u64| !r.contains_key(k),
            r.entries() == Seq::<(u64, V)>::empty(),
    {
        let r = KvMap { pairs: Vec::new() };
        proof {
            assert(r.entries() =~= Seq::<(u64, V)>::empty());
        }
        r
    }

    fn find(&self, k: u64) -> (r: Option<usize>)
        requires
            self.wf(),
        ensures
            match r {
                Some(i) => {
                    &&& i < self.spec_len()
                    &&& self.entries()[i as int].0 == k
                    &&& self.contains_key(k)
                    &&& self.index_of(k) == i
                },
                None => !self.contains_key(k),
            },
    {
        let n = self.pairs.len();
        let mut i: usize = 0;
        while i < n
            invariant
                self.wf(),
                n == self.spec_len(),
                i <= n,
                forall|j: int| 0 <= j < i ==> (#[trigger] self.entries()[j]).0 != k,
            decreases n - i,
        {
            if self.pairs[i].0 == k {
                proof {
                    self.lemma_at(k, i as int);
                }
                return Some(i);
            }
            i += 1;
        }
        None
    }

    pub fn get(&self, k: u64) -> (r: Option<&V>)
        requires
            self.wf(),
        ensures
            match r {
                Some(v) => self.contains_key(k) && self.spec_get(k) == Some(*v),
                None => !self.contains_key(k) && self.spec_get(k) is None,
            },
    {
        match self.find(k) {
            Some(i) => Some(&self.pairs[i].1),
            None => None,
        }
    }

    pub fn contains(&self, k: u64) -> (r: bool)
        requires
            self.wf(),
        ensures
            r == self.contains_key(k),
    {
        self.find(k).is_some()
    }

    pub fn len(&self) -> (r: usize)
        ensures
            r == self.spec_len(),
    {
        self.pairs.len()
    }

    pub fn key_at(&self, i: usize) -> (r: u64)
        requires
            i < self.spec_len(),
        ensures
            r == self.entries()[i as int].0,
            self.wf() ==> self.contains_key(r) && self.index_of(r) == i && self.spec_get(r)
                == Some(self.entries()[i as int].1),
    {
        proof {
            if self.wf() {
                self.lemma_at(self.entries()[i as int].0, i as int);
            }
        }
        self.pairs[i].0
    }

    pub fn val_at(&self, i: usize) -> (r: &V)
        requires
            i < self.spec_len(),
        ensures
            *r == self.entries()[i as int].1,
    {
        &self.pairs[i].1
    }

    pub fn insert(&mut self, k: u64, v: V)
        requires
            old(self).wf(),
        ensures
            final(self).wf(),
            final(self).contains_key(k),
            final(self).spec_get(k) == Some(v),
            forall|k2: u64|
                k2 != k ==> #[trigger] final(self).spec_get(k2) == old(self).spec_get(k2),
            forall|k2: u64|
                #[trigger] final(self).contains_key(k2) <==> (k2 == k || old(self).contains_key(
                    k2,
                )),
            final(self).spec_len() == old(self).spec_len() + (if old(self).contains_key(k) {
                0int
            } else {
                1int
            }),
            !old(self).contains_key(k) ==> final(self).entries() == old(self).entries().push(
                (k, v),
            ),
    {
        let ghost s = self.entries();
        let found = self.find(k);
        match found {
            Some(i) => {
                self.pairs.remove(i);
                proof {
                    lemma_remove_distinct(s, i as int);
                }
            },
            None => {},
        }
        let ghost t = self.entries();
        self.pairs.push((k, v));
        proof {
            let u = self.entries();
            assert(u == t.push((k, v)));
            // the middle sequence `t` holds no pair keyed `k`
            assert forall|j: int| 0 <= j < t.len() implies (#[trigger] t[j]).0 != k by {
                if found is Some {
                    let i = found.unwrap() as int;
                    if j < i {
                        assert(t[j] == s[j]);
                        assert(s[j].0 != s[i].0);
                    } else {
                        assert(t[j] == s[j + 1]);
                        assert(s[i].0 != s[j + 1].0);
                    }
                } else {
                    assert(t[j] == s[j]);
                }
            }
            // distinctness of the result
            assert forall|p: int, q: int| 0 <= p < q < u.len() implies u[p].0 != u[q].0 by {
                if q < u.len() - 1 {
                    assert(u[p] == t[p] && u[q] == t[q]);
                    if found is Some {
                        let i = found.unwrap() as int;
                        let sp = if p < i { p } else { p + 1 };
                        let sq = if q < i { q } else { q + 1 };
                        assert(t[p] == s[sp] && t[q] == s[sq]);
                        assert(s[sp].0 != s[sq].0);
                    }
                } else {
                    assert(u[q] == (k, v));
                    assert(u[p] == t[p]);
                }
            }
            self.lemma_at(k, u.len() - 1);
            // every other key is untouched
            assert forall|k2: u64| k2 != k implies #[trigger] final(self).spec_get(k2) == old(
                self,
            ).spec_get(k2) by {
                lemma_same_key_set(s, t, k2, found, k);
                if old(self).contains_key(k2) {
                    let oi = old(self).index_of(k2);
                    let ti = if found is Some && oi > found.unwrap() as int {
                        oi - 1
                    } else {
                        oi
                    };
                    assert(t[ti] == s[oi]);
                    assert(u[ti] == t[ti]);
                    self.lemma_at(k2, ti);
                } else {
                    if final(self).contains_key(k2) {
                        let ui = final(self).index_of(k2);
                        assert(0 <= ui < u.len() && u[ui].0 == k2);
                        assert(ui < u.len() - 1 ==> t[ui].0 == k2);
                    }
                }
            }
            assert forall|k2: u64| #[trigger]
                final(self).contains_key(k2) <==> (k2 == k || old(self).contains_key(k2)) by {
                if k2 != k {
                    lemma_same_key_set(s, t, k2, found, k);
                    if old(self).contains_key(k2) {
                        let oi = old(self).index_of(k2);
                        let ti = if found is Some && oi > found.unwrap() as int {
                            oi - 1
                        } else {
                            oi
                        };
                        assert(t[ti] == s[oi]);
                        assert(u[ti].0 == k2);
                    } else if final(self).contains_key(k2) {
                        let ui = final(self).index_of(k2);
                        assert(ui < u.len() - 1 ==> t[ui].0 == k2);
                    }
                }
            }
        }
    }

    pub fn remove(&mut self, k: u64) -> (r: Option<V>)
        requires
            old(self).wf(),
        ensures
            final(self).wf(),
            r == old(self).spec_get(k),
            !final(self).contains_key(k),
            final(self).spec_get(k) is None,
            forall|k2: u64|
                k2 != k ==> #[trigger] final(self).spec_get(k2) == old(self).spec_get(k2),
            forall|k2: u64|
                #[trigger] final(self).contains_key(k2) <==> (k2 != k && old(self).contains_key(
                    k2,
                )),
            final(self).spec_len() == old(self).spec_len() - (if old(self).contains_key(k) {
                1int
            } else {
                0int
            }),
    {
        let ghost s = self.entries();
        let found = self.find(k);
        match found {
            Some(i) => {
                let p = self.pairs.remove(i);
                proof {
                    lemma_remove_distinct(s, i as int);
                    let t = self.entries();
                    assert forall|j: int| 0 <= j < t.len() implies (#[trigger] t[j]).0 != k by {
                        if j < i as int {
                            assert(t[j] == s[j]);
                            assert(s[j].0 != s[i as int].0);
                        } else {
                            assert(t[j] == s[j + 1]);
                            assert(s[i as int].0 != s[j + 1].0);
                        }
                    }
                    assert forall|k2: u64| k2 != k implies #[trigger] final(self).spec_get(k2)
                        == old(self).spec_get(k2) by {
                        lemma_same_key_set(s, t, k2, found, k);
                        if old(self).contains_key(k2) {
                            let oi = old(self).index_of(k2);
                            let ti = if oi > i as int {
                                oi - 1
                            } else {
                                oi
                            };
                            assert(t[ti] == s[oi]);
                            self.lemma_at(k2, ti);
                        }
                    }
                    assert forall|k2: u64| #[trigger]
                        final(self).contains_key(k2) <==> (k2 != k && old(self).contains_key(
                            k2,
                        )) by {
                        if k2 != k {
                            lemma_same_key_set(s, t, k2, found, k);
                            if old(self).contains_key(k2) {
                                let oi = old(self).index_of(k2);
                                let ti = if oi > i as int {
                                    oi - 1
                                } else {
                                    oi
                                };
                                assert(t[ti] == s[oi]);
                            }
                        }
                    }
                }
                Some(p.1)
            },
            None => None,
        }
    }
}

/// Removing one pair from a distinct-key sequence keeps the keys distinct and
/// shifts the later pairs down by one.
proof fn lemma_remove_distinct<V>(s: Seq<(u64, V)>, i: int)
    requires
        0 <= i < s.len(),
        forall|p: int, q: int| 0 <= p < q < s.len() ==> (#[trigger] s[p]).0 != (#[trigger] s[q]).0,
    ensures
        s.remove(i).len() == s.len() - 1,
        forall|j: int| 0 <= j < i ==> #[trigger] s.remove(i)[j] == s[j],
        forall|j: int| i <= j < s.len() - 1 ==> #[trigger] s.remove(i)[j] == s[j + 1],
        forall|p: int, q: int|
            0 <= p < q < s.len() - 1 ==> (#[trigger] s.remove(i)[p]).0 != (
            #[trigger] s.remove(i)[q]).0,
{
    s.remove_ensures(i);
    let t = s.remove(i);
    assert forall|p: int, q: int| 0 <= p < q < t.len() implies (#[trigger] t[p]).0 != (
    #[trigger] t[q]).0 by {
        let sp = if p < i {
            p
        } else {
            p + 1
        };
        let sq = if q < i {
            q
        } else {
            q + 1
        };
        assert(t[p] == s[sp] && t[q] == s[sq]);
        assert(s[sp].0 != s[sq].0);
    }
}

/// After dropping at most the pair keyed `k`, any other key keeps a witness.
proof fn lemma_same_key_set<V>(s: Seq<(u64, V)>, t: Seq<(u64, V)>, k2: u64, found: Option<usize>, k: u64)
    requires
        k2 != k,
        match found {
            Some(i) => {
                &&& 0 <= i < s.len()
                &&& t.len() == s.len() - 1
                &&& forall|j: int| 0 <= j < i ==> #[trigger] t[j] == s[j]
                &&& forall|j: int| i <= j < t.len() ==> #[trigger] t[j] == s[j + 1]
                &&& s[i as int].0 == k
            },
            None => t == s,
        },
    ensures
        (exists|j: int| 0 <= j < s.len() && (#[trigger] s[j]).0 == k2) <==> (exists|j: int|
            0 <= j < t.len() && (#[trigger] t[j]).0 == k2),
{
    if exists|j: int| 0 <= j < s.len() && (#[trigger] s[j]).0 == k2 {
        let j = choose|j: int| 0 <= j < s.len() && (#[trigger] s[j]).0 == k2;
        match found {
            Some(i) => {
                let ti = if j > i as int {
                    j - 1
                } else {
                    j
                };
                assert(j != i as int);
                assert(t[ti] == s[j]);
            },
            None => {
                assert(t[j].0 == k2);
            },
        }
    }
    if exists|j: int| 0 <= j < t.len() && (#[trigger] t[j]).0 == k2 {
        let j = choose|j: int| 0 <= j < t.len() && (#[trigger] t[j]).0 == k2;
        match found {
            Some(i) => {
                if j < i as int {
                    assert(s[j].0 == k2);
                } else {
                    assert(s[j + 1].0 == k2);
                }
            },
            None => {
                assert(s[j].0 == k2);
            },
        }
    }
}

} // verus!
