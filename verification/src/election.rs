use vstd::prelude::*;
use crate::state::Staking;
use crate::store::KvMap;
use crate::types::{
    lemma_sum_exposure_push, EraRewardPoints, EraSnapshot, Error, Exposure, IndividualExposure,
    Perbill, ValidatorPrefs,
};

verus! {

/// Highest number of nominator contributions kept in a clipped exposure.
pub const MAX_NOMINATORS_REWARDED: usize = 64;

/// The active stake behind a stash: its ledger's `active`, zero when the
/// stash is not bonded.
pub open spec fn spec_active_of(s: Staking, stash: u64) -> u64 {
    if s.bonded.contains_key(stash) && s.ledger.contains_key(s.bonded.spec_get(stash).unwrap()) {
        s.ledger.spec_get(s.bonded.spec_get(stash).unwrap()).unwrap().active
    } else {
        0
    }
}

/// A nominator's contribution is counted in an exposure: an entry carries
/// exactly its stake, or the exposure's total could not have carried it.
pub open spec fn contribution_counted(exp: Exposure, nom: u64, stake: u64) -> bool {
    (exists|j: int|
        0 <= j < exp.others@.len() && #[trigger] exp.others@[j] == (IndividualExposure {
            who: nom,
            value: stake,
        })) || exp.total as int + stake as int > u64::MAX as int
}

/// Saturating sum of the exposure totals recorded for the first `i` elected
/// stashes, in election order.
pub open spec fn sat_stake_sum(m: KvMap<Exposure>, s: Seq<u64>, i: int) -> int
    decreases i,
{
    if i <= 0 {
        0
    } else {
        let prev = sat_stake_sum(m, s, i - 1);
        if prev + m.spec_get(s[i - 1]).unwrap().total <= u64::MAX as int {
            prev + m.spec_get(s[i - 1]).unwrap().total
        } else {
            u64::MAX as int
        }
    }
}

/// Two stores agreeing on a prefix of stashes give the same saturating sum.
proof fn lemma_sat_stake_sum_agree(
    m1: KvMap<Exposure>,
    m2: KvMap<Exposure>,
    s1: Seq<u64>,
    s2: Seq<u64>,
    i: int,
)
    requires
        forall|k: int|
            0 <= k < i ==> (#[trigger] s1[k] == s2[k] && m1.spec_get(s1[k]) == m2.spec_get(
                s1[k],
            )),
    ensures
        sat_stake_sum(m1, s1, i) == sat_stake_sum(m2, s2, i),
    decreases i,
{
    if i > 0 {
        lemma_sat_stake_sum_agree(m1, m2, s1, s2, i - 1);
    }
}

/// Ranking order of election candidates: more backing stake first, ties
/// broken by the smaller stash identity.
pub open spec fn ranks_before(a: (u64, u64), b: (u64, u64)) -> bool {
    a.1 > b.1 || (a.1 == b.1 && a.0 <= b.0)
}

impl Staking {
    /// The active stake behind a stash, zero when it is not bonded.
    pub fn active_of(&self, stash: u64) -> (r: u64)
        requires
            self.wf(),
        ensures
            r == spec_active_of(*self, stash),
    {
        match self.bonded.get(stash) {
            Some(c) => {
                match self.ledger.get(*c) {
                    Some(l) => l.active,
                    None => 0,
                }
            },
            None => 0,
        }
    }

    /// Drop every era snapshot older than `cutoff`.
    pub fn prune_eras(&mut self, cutoff: u64)
        requires
            old(self).wf(),
        ensures
            final(self).wf(),
            forall|e: u64|
                #[trigger] final(self).eras.contains_key(e) <==> (old(self).eras.contains_key(e)
                    && e >= cutoff),
            forall|e: u64|
                e >= cutoff ==> #[trigger] final(self).eras.spec_get(e) == old(
                    self,
                ).eras.spec_get(e),
            *final(self) == (Staking { eras: final(self).eras, ..*old(self) }),
    {
        let mut kept: KvMap<EraSnapshot> = KvMap::new();
        while self.eras.len() > 0
            invariant
                self.wf(),
                kept.wf(),
                *self == (Staking { eras: self.eras, ..*old(self) }),
                forall|e: u64|
                    #[trigger] kept.contains_key(e) ==> (old(self).eras.contains_key(e) && e
                        >= cutoff && !self.eras.contains_key(e)),
                forall|e: u64|
                    #[trigger] kept.contains_key(e) ==> kept.spec_get(e) == old(
                        self,
                    ).eras.spec_get(e),
                forall|e: u64|
                    #[trigger] self.eras.contains_key(e) ==> (old(self).eras.contains_key(e)
                        && self.eras.spec_get(e) == old(self).eras.spec_get(e)),
                forall|e: u64|
                    old(self).eras.contains_key(e) && e >= cutoff ==> (
                    #[trigger] kept.contains_key(e) || #[trigger] self.eras.contains_key(e)),
            decreases self.eras.spec_len(),
        {
            let k = self.eras.key_at(0);
            let v = self.eras.remove(k).unwrap();
            if k >= cutoff {
                kept.insert(k, v);
            }
        }
        proof {
            assert forall|e: u64| !(#[trigger] self.eras.contains_key(e)) by {
                if self.eras.contains_key(e) {
                    let i = choose|i: int|
                        0 <= i < self.eras.entries().len() && (#[trigger] self.eras.entries()[i]).0
                            == e;
                }
            }
        }
        proof {
            assert forall|e: u64| #[trigger]
                kept.contains_key(e) <==> (old(self).eras.contains_key(e) && e >= cutoff) by {
                if !kept.contains_key(e) && old(self).eras.contains_key(e) && e >= cutoff {
                    assert(self.eras.contains_key(e));
                    assert(false);
                }
            }
            assert forall|e: u64|
                old(self).eras.contains_key(e) && e >= cutoff implies #[trigger] kept.spec_get(e)
                == old(self).eras.spec_get(e) by {
                assert(kept.contains_key(e));
            }
        }
        self.eras = kept;
        proof {
            let post = *self;
            assert(post.eras == kept);
            assert forall|c2: u64| post.ledger.contains_key(c2) implies (
            #[trigger] post.ledger.spec_get(c2)).unwrap().wf() by {
                assert(old(self).ledger.contains_key(c2));
            }
            assert forall|e: u64| post.eras.contains_key(e) implies (
            #[trigger] post.eras.spec_get(e)).unwrap().wf() by {
                assert(kept.contains_key(e));
                assert(old(self).eras.contains_key(e));
            }
            assert forall|e: u64| #[trigger]
                post.eras.contains_key(e) <==> (old(self).eras.contains_key(e) && e
                >= cutoff) by {
                if post.eras.contains_key(e) {
                    assert(kept.contains_key(e));
                }
                if old(self).eras.contains_key(e) && e >= cutoff {
                    assert(kept.contains_key(e));
                }
            }
            assert forall|e: u64| e >= cutoff implies #[trigger] post.eras.spec_get(e) == old(
                self,
            ).eras.spec_get(e) by {
                if old(self).eras.contains_key(e) {
                    assert(kept.contains_key(e));
                    assert(kept.spec_get(e) == old(self).eras.spec_get(e));
                } else {
                    if post.eras.contains_key(e) {
                        assert(kept.contains_key(e));
                        assert(old(self).eras.contains_key(e));
                    }
                }
            }
        }
    }
}

/// Whether the vector holds `x`.
pub fn contains_u64(v: &Vec<u64>, x: u64) -> (r: bool)
    ensures
        r == v@.contains(x),
{
    let n = v.len();
    let mut i: usize = 0;
    while i < n
        invariant
            n == v@.len(),
            i <= n,
            forall|j: int| 0 <= j < i ==> v@[j] != x,
        decreases n - i,
    {
        if v[i] == x {
            return true;
        }
        i += 1;
    }
    false
}

impl Staking {
    /// All election candidates: every stash with validator intent, together
    /// with the invulnerables, without repetition.
    fn candidate_stashes(&self) -> (r: Vec<u64>)
        requires
            self.wf(),
        ensures
            r@.no_duplicates(),
            forall|i: int|
                0 <= i < r@.len() ==> (self.validators.contains_key(#[trigger] r@[i])
                    || self.invulnerables@.contains(r@[i])),
            forall|s: u64| #[trigger] self.validators.contains_key(s) ==> r@.contains(s),
            r@.len() >= self.validators.spec_len(),
            self.invulnerables@.len() == 0 ==> r@.len() == self.validators.spec_len(),
    {
        let mut r: Vec<u64> = Vec::new();
        let n = self.validators.len();
        let mut i: usize = 0;
        while i < n
            invariant
                self.wf(),
                n == self.validators.spec_len(),
                i <= n,
                r@.len() == i,
                forall|j: int|
                    0 <= j < i ==> #[trigger] r@[j] == self.validators.entries()[j].0,
            decreases n - i,
        {
            let k = self.validators.key_at(i);
            r.push(k);
            i += 1;
        }
        proof {
            assert forall|p: int, q: int| 0 <= p < q < r@.len() implies r@[p] != r@[q] by {
                assert(self.validators.entries()[p].0 != self.validators.entries()[q].0);
            }
            assert forall|s: u64| #[trigger]
                self.validators.contains_key(s) implies r@.contains(s) by {
                let j = self.validators.index_of(s);
                assert(r@[j] == s);
            }
        }
        let ghost r0 = r@;
        let m = self.invulnerables.len();
        let mut k: usize = 0;
        while k < m
            invariant
                self.wf(),
                m == self.invulnerables@.len(),
                k <= m,
                r@.no_duplicates(),
                r@.len() >= r0.len(),
                m == 0 ==> r@ == r0,
                forall|j: int| 0 <= j < r0.len() ==> #[trigger] r@[j] == r0[j],
                forall|i2: int|
                    0 <= i2 < r@.len() ==> (self.validators.contains_key(#[trigger] r@[i2])
                        || self.invulnerables@.contains(r@[i2])),
                forall|s: u64| #[trigger] self.validators.contains_key(s) ==> r@.contains(s),
            decreases m - k,
        {
            let inv = self.invulnerables[k];
            if !contains_u64(&r, inv) {
                let ghost rp = r@;
                r.push(inv);
                proof {
                    assert(self.invulnerables@.contains(inv));
                    assert forall|p: int, q: int| 0 <= p < q < r@.len() implies r@[p] != r@[q] by {
                        if q == r@.len() - 1 {
                            assert(!rp.contains(inv));
                            assert(r@[p] == rp[p]);
                        }
                    }
                    assert forall|s: u64| #[trigger]
                        self.validators.contains_key(s) implies r@.contains(s) by {
                        let j = choose|j: int| 0 <= j < rp.len() && rp[j] == s;
                        assert(r@[j] == s);
                    }
                }
            }
            k += 1;
        }
        r
    }
}

/// Ranking order over stake contributions: larger stake first, ties broken
/// by the smaller account.
pub open spec fn contributes_before(a: IndividualExposure, b: IndividualExposure) -> bool {
    a.value > b.value || (a.value == b.value && a.who <= b.who)
}

/// Sort nominator contributions by descending stake (stable under distinct
/// accounts); the result holds only values drawn from the input.
fn sort_contributions(v: &Vec<IndividualExposure>) -> (r: Vec<IndividualExposure>)
    ensures
        r@.len() == v@.len(),
        forall|i: int, j: int|
            0 <= i < j < r@.len() ==> contributes_before(#[trigger] r@[i], #[trigger] r@[j]),
        forall|i: int| 0 <= i < r@.len() ==> v@.contains(#[trigger] r@[i]),
{
    let n = v.len();
    let mut r: Vec<IndividualExposure> = Vec::new();
    let mut i: usize = 0;
    while i < n
        invariant
            n == v@.len(),
            i <= n,
            r@.len() == i,
            forall|p: int, q: int|
                0 <= p < q < r@.len() ==> contributes_before(#[trigger] r@[p], #[trigger] r@[q]),
            forall|p: int| 0 <= p < r@.len() ==> v@.contains(#[trigger] r@[p]),
        decreases n - i,
    {
        let e = v[i];
        let rl = r.len();
        let mut pos: usize = 0;
        while pos < rl && r[pos].value > e.value || pos < rl && r[pos].value == e.value
            && r[pos].who <= e.who
            invariant
                rl == r@.len(),
                pos <= rl,
                forall|p: int| 0 <= p < pos ==> contributes_before(#[trigger] r@[p], e),
            decreases rl - pos,
        {
            pos += 1;
        }
        let ghost rp = r@;
        r.insert(pos, e);
        proof {
            rp.insert_ensures(pos as int, e);
            assert(v@.contains(e));
            assert forall|p: int, q: int|
                0 <= p < q < r@.len() implies contributes_before(
                #[trigger] r@[p],
                #[trigger] r@[q],
            ) by {
                if q == pos as int {
                    assert(r@[p] == rp[p]);
                } else if p == pos as int {
                    assert(r@[q] == rp[q - 1]);
                    if (pos as int) <= q - 1 {
                        assert(!contributes_before(rp[pos as int], e));
                        if (pos as int) < q - 1 {
                            assert(contributes_before(rp[pos as int], rp[q - 1]));
                        }
                    }
                } else if p < pos as int && q > pos as int {
                    assert(r@[p] == rp[p] && r@[q] == rp[q - 1]);
                    if (pos as int) < q - 1 {
                        assert(contributes_before(rp[pos as int], rp[q - 1]));
                    }
                    assert(contributes_before(rp[p], e));
                    assert(!contributes_before(rp[pos as int], e));
                } else if q < pos as int {
                    assert(r@[p] == rp[p] && r@[q] == rp[q]);
                } else {
                    assert(r@[p] == rp[p - 1] && r@[q] == rp[q - 1]);
                }
            }
            assert forall|p: int| 0 <= p < r@.len() implies v@.contains(#[trigger] r@[p]) by {
                if p < pos as int {
                    assert(r@[p] == rp[p]);
                } else if p > pos as int {
                    assert(r@[p] == rp[p - 1]);
                }
            }
        }
        i += 1;
    }
    r
}

/// Clip an exposure for reward purposes: keep the highest nominator
/// contributions, at most `MAX_NOMINATORS_REWARDED` of them, and recompute
/// the total over what is kept.
fn clip_exposure(exp: &Exposure) -> (r: Exposure)
    requires
        exp.wf(),
    ensures
        r.wf(),
        r.own == exp.own,
        r.others@.len() <= MAX_NOMINATORS_REWARDED,
        forall|i: int, j: int|
            0 <= i < j < r.others@.len() ==> contributes_before(
                #[trigger] r.others@[i],
                #[trigger] r.others@[j],
            ),
{
    let sorted = sort_contributions(&exp.others);
    let mut kept: Vec<IndividualExposure> = Vec::new();
    let mut total: u64 = exp.own;
    let n = sorted.len();
    let mut i: usize = 0;
    while i < n && kept.len() < MAX_NOMINATORS_REWARDED
        invariant
            n == sorted@.len(),
            i <= n,
            kept@.len() <= i,
            kept@.len() <= MAX_NOMINATORS_REWARDED,
            total as int == exp.own + crate::types::sum_exposure(kept@),
            kept@ == sorted@.subrange(0, kept@.len() as int),
            kept@.len() == i || kept@.len() == MAX_NOMINATORS_REWARDED,
            forall|p: int, q: int|
                0 <= p < q < sorted@.len() ==> contributes_before(
                    #[trigger] sorted@[p],
                    #[trigger] sorted@[q],
                ),
        decreases n - i,
    {
        let e = sorted[i];
        if kept.len() == i && e.value <= u64::MAX - total {
            proof {
                lemma_sum_exposure_push(kept@, e);
                assert(kept@.push(e) =~= sorted@.subrange(0, kept@.len() as int + 1));
            }
            kept.push(e);
            total = total + e.value;
        } else {
            let r = Exposure { total, own: exp.own, others: kept };
            return r;
        }
        i += 1;
    }
    Exposure { total, own: exp.own, others: kept }
}

/// Sort (stash, stake) pairs by rank. The result is a permutation of the
/// input as a set of pairs; with pairwise-distinct stashes in the input the
/// stashes of the result stay pairwise distinct.
fn rank_candidates(pairs: &Vec<(u64, u64)>) -> (r: Vec<(u64, u64)>)
    requires
        forall|p: int, q: int|
            0 <= p < q < pairs@.len() ==> (#[trigger] pairs@[p]).0 != (#[trigger] pairs@[q]).0,
    ensures
        r@.len() == pairs@.len(),
        forall|i: int, j: int|
            0 <= i < j < r@.len() ==> ranks_before(#[trigger] r@[i], #[trigger] r@[j]),
        forall|i: int| 0 <= i < r@.len() ==> pairs@.contains(#[trigger] r@[i]),
        forall|p: int, q: int|
            0 <= p < q < r@.len() ==> (#[trigger] r@[p]).0 != (#[trigger] r@[q]).0,
{
    let n = pairs.len();
    let mut r: Vec<(u64, u64)> = Vec::new();
    let mut i: usize = 0;
    while i < n
        invariant
            n == pairs@.len(),
            i <= n,
            r@.len() == i,
            forall|p: int, q: int|
                0 <= p < q < pairs@.len() ==> (#[trigger] pairs@[p]).0 != (
                #[trigger] pairs@[q]).0,
            forall|p: int, q: int|
                0 <= p < q < r@.len() ==> ranks_before(#[trigger] r@[p], #[trigger] r@[q]),
            forall|p: int|
                0 <= p < r@.len() ==> exists|w: int| 0 <= w < i && #[trigger] r@[p] == pairs@[w],
            forall|p: int, q: int|
                0 <= p < q < r@.len() ==> (#[trigger] r@[p]).0 != (#[trigger] r@[q]).0,
        decreases n - i,
    {
        let e = pairs[i];
        let rl = r.len();
        let mut pos: usize = 0;
        while pos < rl && (r[pos].1 > e.1 || (r[pos].1 == e.1 && r[pos].0 <= e.0))
            invariant
                rl == r@.len(),
                pos <= rl,
                forall|p: int| 0 <= p < pos ==> ranks_before(#[trigger] r@[p], e),
            decreases rl - pos,
        {
            pos += 1;
        }
        let ghost rp = r@;
        r.insert(pos, e);
        proof {
            rp.insert_ensures(pos as int, e);
            assert forall|p: int, q: int|
                0 <= p < q < r@.len() implies ranks_before(#[trigger] r@[p], #[trigger] r@[q]) by {
                if q == pos as int {
                    assert(r@[p] == rp[p]);
                } else if p == pos as int {
                    assert(r@[q] == rp[q - 1]);
                    if (pos as int) <= q - 1 {
                        assert(!ranks_before(rp[pos as int], e));
                        if (pos as int) < q - 1 {
                            assert(ranks_before(rp[pos as int], rp[q - 1]));
                        }
                    }
                } else if p < pos as int && q > pos as int {
                    assert(r@[p] == rp[p] && r@[q] == rp[q - 1]);
                    if (pos as int) < q - 1 {
                        assert(ranks_before(rp[pos as int], rp[q - 1]));
                    }
                    assert(ranks_before(rp[p], e));
                    assert(!ranks_before(rp[pos as int], e));
                } else if q < pos as int {
                    assert(r@[p] == rp[p] && r@[q] == rp[q]);
                } else {
                    assert(r@[p] == rp[p - 1] && r@[q] == rp[q - 1]);
                }
            }
            assert forall|p: int|
                0 <= p < r@.len() implies exists|w: int|
                0 <= w < i + 1 && #[trigger] r@[p] == pairs@[w] by {
                if p < pos as int {
                    assert(r@[p] == rp[p]);
                    let w = choose|w: int| 0 <= w < i && rp[p] == pairs@[w];
                    assert(r@[p] == pairs@[w]);
                } else if p == pos as int {
                    assert(r@[p] == pairs@[i as int]);
                } else {
                    assert(r@[p] == rp[p - 1]);
                    let w = choose|w: int| 0 <= w < i && rp[p - 1] == pairs@[w];
                    assert(r@[p] == pairs@[w]);
                }
            }
            assert forall|p: int, q: int|
                0 <= p < q < r@.len() implies (#[trigger] r@[p]).0 != (#[trigger] r@[q]).0 by {
                let wp = choose|w: int| 0 <= w < i + 1 && r@[p] == pairs@[w];
                let wq = choose|w: int| 0 <= w < i + 1 && r@[q] == pairs@[w];
                if wp != wq {
                    if wp < wq {
                        assert(pairs@[wp].0 != pairs@[wq].0);
                    } else {
                        assert(pairs@[wq].0 != pairs@[wp].0);
                    }
                } else {
                    assert(r@[p] == r@[q]);
                    assert(ranks_before(r@[p], r@[q]) && ranks_before(r@[q], r@[p]));
                    if p < pos as int && q == pos as int {
                        assert(rp[p] == pairs@[i as int]);
                        let w2 = choose|w: int| 0 <= w < i && rp[p] == pairs@[w];
                        assert(pairs@[w2].0 != pairs@[i as int].0);
                        assert(false);
                    } else if p == pos as int && q > pos as int {
                        assert(rp[q - 1] == pairs@[i as int]);
                        let w2 = choose|w: int| 0 <= w < i && rp[q - 1] == pairs@[w];
                        assert(pairs@[w2].0 != pairs@[i as int].0);
                        assert(false);
                    } else if p < pos as int && q < pos as int {
                        assert(rp[p] == rp[q]);
                        assert(false);
                    } else if p > pos as int && q > pos as int {
                        assert(rp[p - 1] == rp[q - 1]);
                        assert(false);
                    } else if p < pos as int && q > pos as int {
                        assert(rp[p] == rp[q - 1]);
                        assert(false);
                    }
                }
            }
        }
        i += 1;
    }
    r
}

/// Recording one well-formed snapshot (and moving the era counter) keeps the
/// whole state well-formed.
pub(crate) proof fn lemma_wf_after_snapshot(pre: Staking, post: Staking, e: u64, snap: EraSnapshot)
    requires
        pre.wf(),
        post.eras.wf(),
        snap.wf(),
        post.eras.spec_get(e) == Some(snap),
        forall|x: u64| x != e ==> #[trigger] post.eras.spec_get(x) == pre.eras.spec_get(x),
        forall|x: u64| #[trigger] post.eras.contains_key(x) <==> (x == e || pre.eras.contains_key(x)),
        post == (Staking { eras: post.eras, current_era: post.current_era, ..pre }),
    ensures
        post.wf(),
{
    assert forall|c2: u64| post.ledger.contains_key(c2) implies (#[trigger] post.ledger.spec_get(
        c2,
    )).unwrap().wf() by {
        assert(pre.ledger.contains_key(c2));
    }
    assert forall|x: u64| post.eras.contains_key(x) implies (#[trigger] post.eras.spec_get(
        x,
    )).unwrap().wf() by {
        if x != e {
            assert(pre.eras.contains_key(x));
        }
    }
}

impl Staking {
    /// Run the era election: enumerate candidates and nominators, apportion
    /// each nominator's active stake in full to every one of its targets,
    /// select the `validator_count` candidates with the most backing stake
    /// (ties to the smaller stash id), persist the era snapshot, advance the
    /// era, prune snapshots beyond `history_depth`, and apply any deferred
    /// slashes whose dispute window ends now. A repeated call for the same
    /// session is a no-op returning the stored set. A nominator contribution
    /// that cannot be counted without overflowing a 64-bit total is left out.
    pub fn new_era(&mut self, session_index: u32) -> (r: Result<Vec<u64>, Error>)
        requires
            old(self).wf(),
        ensures
            final(self).wf(),
            r is Err ==> (*final(self) == *old(self) && r == Err::<Vec<u64>, Error>(
                Error::NotEnoughValidators,
            )),
            ({
                let cur = old(self).era_now() as u64;
                (old(self).current_era is Some && old(self).eras.contains_key(cur) && old(
                    self,
                ).eras.spec_get(cur).unwrap().start_session_index == session_index) ==> (r is Ok
                    && *final(self) == *old(self) && r.unwrap()@ == old(self).eras.spec_get(
                    cur,
                ).unwrap().elected@)
            }),
            ({
                let threshold: int = if old(self).minimum_validator_count > 1 {
                    old(self).minimum_validator_count as int
                } else {
                    1
                };
                &&& (r is Err ==> old(self).validators.spec_len() < threshold)
                &&& ((!(old(self).current_era is Some && old(self).eras.contains_key(
                    old(self).era_now() as u64,
                ) && old(self).eras.spec_get(old(self).era_now() as u64).unwrap().start_session_index
                    == session_index) && old(self).validators.spec_len() >= threshold) ==> r is Ok)
            }),
            (r is Ok && !(old(self).current_era is Some && old(self).eras.contains_key(
                old(self).era_now() as u64,
            ) && old(self).eras.spec_get(old(self).era_now() as u64).unwrap().start_session_index
                == session_index)) ==> ({
                let ne: u32 = if old(self).current_era is Some {
                    if old(self).era_now() < u32::MAX {
                        (old(self).era_now() + 1) as u32
                    } else {
                        u32::MAX
                    }
                } else {
                    0
                };
                let cutoff: u64 = if ne > old(self).history_depth {
                    (ne - old(self).history_depth) as u64
                } else {
                    0
                };
                let elected = r.unwrap();
                let snap = final(self).eras.spec_get(ne as u64).unwrap();
                &&& final(self).current_era == Some(ne)
                &&& final(self).eras.contains_key(ne as u64)
                &&& snap.start_session_index == session_index
                &&& snap.elected@ == elected@
                &&& snap.validator_reward == 0
                &&& snap.total_stake as int == sat_stake_sum(
                    snap.stakers,
                    elected@,
                    elected@.len() as int,
                )
                &&& forall|k: u64| !snap.claims.contains_key(k)
                &&& forall|i: int|
                    0 <= i < elected@.len() ==> #[trigger] snap.validator_prefs.spec_get(
                        elected@[i],
                    ) == Some(
                        if old(self).validators.contains_key(elected@[i]) {
                            old(self).validators.spec_get(elected@[i]).unwrap()
                        } else {
                            ValidatorPrefs { commission: Perbill { parts: 0 } }
                        },
                    )
                &&& elected@.no_duplicates()
                &&& elected@.len() <= old(self).validator_count
                &&& (old(self).invulnerables@.len() == 0 ==> elected@.len() == vstd::math::min(
                    old(self).validator_count as int,
                    old(self).validators.spec_len() as int,
                ))
                &&& forall|i: int|
                    0 <= i < elected@.len() ==> (old(self).validators.contains_key(
                        #[trigger] elected@[i],
                    ) || old(self).invulnerables@.contains(elected@[i]))
                &&& forall|i: int|
                    0 <= i < elected@.len() ==> (snap.stakers.contains_key(#[trigger] elected@[i])
                        && snap.stakers_clipped.contains_key(elected@[i])
                        && snap.validator_prefs.contains_key(elected@[i]))
                &&& forall|i: int|
                    0 <= i < elected@.len() ==> (#[trigger] snap.stakers.spec_get(
                        elected@[i],
                    )).unwrap().own == spec_active_of(*old(self), elected@[i])
                &&& forall|i: int, nom: u64|
                    #![trigger snap.stakers.spec_get(elected@[i]), old(self).nominators.spec_get(nom)]
                    0 <= i < elected@.len() && old(self).nominators.contains_key(nom) && old(
                        self,
                    ).nominators.spec_get(nom).unwrap().targets@.contains(elected@[i])
                        ==> contribution_counted(
                        snap.stakers.spec_get(elected@[i]).unwrap(),
                        nom,
                        spec_active_of(*old(self), nom),
                    )
                &&& forall|i: int, j: int|
                    0 <= i < j < elected@.len() ==> ranks_before(
                        (elected@[i], (#[trigger] snap.stakers.spec_get(
                            elected@[i],
                        )).unwrap().total),
                        (elected@[j], (#[trigger] snap.stakers.spec_get(
                            elected@[j],
                        )).unwrap().total),
                    )
                &&& forall|e2: u64|
                    #[trigger] final(self).eras.contains_key(e2) <==> ((e2 == ne as u64 || old(
                        self,
                    ).eras.contains_key(e2)) && e2 >= cutoff)
                &&& (ne >= old(self).slash_defer_duration ==> !final(self).unapplied_slashes.contains_key((ne - old(self).slash_defer_duration) as u64))
                &&& (old(self).unapplied_slashes.spec_len() == 0 ==> (final(self).nominators
                    == old(self).nominators && final(self).validators == old(self).validators
                    && final(self).ledger == old(self).ledger && final(self).free_balance == old(
                    self,
                ).free_balance))
                &&& *final(self) == (Staking {
                    eras: final(self).eras,
                    current_era: final(self).current_era,
                    ledger: final(self).ledger,
                    validators: final(self).validators,
                    nominators: final(self).nominators,
                    free_balance: final(self).free_balance,
                    unapplied_slashes: final(self).unapplied_slashes,
                    ..*old(self)
                })
            }),
    {
        // idempotent re-entry guard for the same session
        match self.current_era {
            Some(cur) => {
                let repeat = match self.eras.get(cur as u64) {
                    Some(snap) => snap.start_session_index == session_index,
                    None => false,
                };
                if repeat {
                    let out = match self.eras.get(cur as u64) {
                        Some(snap) => crate::types::copy_vec_u64(&snap.elected),
                        None => Vec::new(),
                    };
                    return Ok(out);
                }
            },
            None => {},
        }
        let cands = self.candidate_stashes();
        let threshold: u32 = if self.minimum_validator_count > 1 {
            self.minimum_validator_count
        } else {
            1
        };
        if (cands.len() as u64) < threshold as u64 {
            proof {
                assert(old(self).validators.spec_len() <= cands@.len());
            }
            return Err(Error::NotEnoughValidators);
        }
        // build the unclipped exposures, one per candidate
        let nc = cands.len();
        let mut stakers: KvMap<Exposure> = KvMap::new();
        let mut ci: usize = 0;
        while ci < nc
            invariant
                self.wf(),
                nc == cands@.len(),
                ci <= nc,
                cands@.no_duplicates(),
                stakers.wf(),
                forall|p: int| 0 <= p < ci ==> #[trigger] stakers.contains_key(cands@[p]),
                forall|v: u64|
                    #[trigger] stakers.contains_key(v) ==> ({
                        let x = stakers.spec_get(v).unwrap();
                        &&& x.wf()
                        &&& x.own == spec_active_of(*self, v)
                        &&& cands@.contains(v)
                    }),
            decreases nc - ci,
        {
            let stash = cands[ci];
            let own = self.active_of(stash);
            let exp = Exposure { total: own, own, others: Vec::new() };
            proof {
                assert(crate::types::sum_exposure(exp.others@) == 0);
                assert(cands@.contains(stash));
            }
            stakers.insert(stash, exp);
            ci += 1;
        }
        // apportion each nominator's stake in full to each of its targets
        let nn = self.nominators.len();
        let mut ni: usize = 0;
        while ni < nn
            invariant
                self.wf(),
                nn == self.nominators.spec_len(),
                ni <= nn,
                nc == cands@.len(),
                cands@.no_duplicates(),
                stakers.wf(),
                forall|p: int| 0 <= p < nc ==> #[trigger] stakers.contains_key(cands@[p]),
                forall|v: u64|
                    #[trigger] stakers.contains_key(v) ==> ({
                        let x = stakers.spec_get(v).unwrap();
                        &&& x.wf()
                        &&& x.own == spec_active_of(*self, v)
                        &&& cands@.contains(v)
                    }),
                forall|v: u64, nom: u64|
                    #![trigger stakers.spec_get(v), self.nominators.spec_get(nom)]
                    stakers.contains_key(v) && (exists|p: int|
                        0 <= p < ni && (#[trigger] self.nominators.entries()[p]).0 == nom)
                        && self.nominators.spec_get(nom).unwrap().targets@.contains(v)
                        ==> contribution_counted(
                        stakers.spec_get(v).unwrap(),
                        nom,
                        spec_active_of(*self, nom),
                    ),
            decreases nn - ni,
        {
            let nom_stash = self.nominators.key_at(ni);
            let stake = self.active_of(nom_stash);
            let tcount = self.nominators.val_at(ni).targets.len();
            let mut tj: usize = 0;
            while tj < tcount
                invariant
                    self.wf(),
                    nn == self.nominators.spec_len(),
                    ni < nn,
                    nom_stash == self.nominators.entries()[ni as int].0,
                    stake == spec_active_of(*self, nom_stash),
                    tcount == self.nominators.entries()[ni as int].1.targets@.len(),
                    tj <= tcount,
                    nc == cands@.len(),
                    cands@.no_duplicates(),
                    stakers.wf(),
                    forall|p: int| 0 <= p < nc ==> #[trigger] stakers.contains_key(cands@[p]),
                    forall|v: u64|
                        #[trigger] stakers.contains_key(v) ==> ({
                            let x = stakers.spec_get(v).unwrap();
                            &&& x.wf()
                            &&& x.own == spec_active_of(*self, v)
                            &&& cands@.contains(v)
                        }),
                    forall|v: u64, nom: u64|
                        #![trigger stakers.spec_get(v), self.nominators.spec_get(nom)]
                        stakers.contains_key(v) && (exists|p: int|
                            0 <= p < ni && (#[trigger] self.nominators.entries()[p]).0 == nom)
                            && self.nominators.spec_get(nom).unwrap().targets@.contains(v)
                            ==> contribution_counted(
                            stakers.spec_get(v).unwrap(),
                            nom,
                            spec_active_of(*self, nom),
                        ),
                    forall|v: u64|
                        #![trigger stakers.spec_get(v)]
                        stakers.contains_key(v)
                            && self.nominators.entries()[ni as int].1.targets@.subrange(
                            0,
                            tj as int,
                        ).contains(v) ==> contribution_counted(
                            stakers.spec_get(v).unwrap(),
                            nom_stash,
                            stake,
                        ),
                decreases tcount - tj,
            {
                let t = self.nominators.val_at(ni).targets[tj];
                let ghost pre_stakers = stakers;
                match stakers.remove(t) {
                    Some(mut exp) => {
                        if stake <= u64::MAX - exp.total {
                            let ghost others0 = exp.others@;
                            let contribution = IndividualExposure { who: nom_stash, value: stake };
                            exp.others.push(contribution);
                            exp.total = exp.total + stake;
                            proof {
                                lemma_sum_exposure_push(others0, contribution);
                            }
                        }
                        stakers.insert(t, exp);
                        proof {
                            assert forall|p: int|
                                0 <= p < nc implies #[trigger] stakers.contains_key(
                                cands@[p],
                            ) by {
                                assert(pre_stakers.contains_key(cands@[p]));
                            }
                            assert forall|v: u64| #[trigger]
                                stakers.contains_key(v) implies ({
                                let x = stakers.spec_get(v).unwrap();
                                &&& x.wf()
                                &&& x.own == spec_active_of(*self, v)
                                &&& cands@.contains(v)
                            }) by {
                                if v != t {
                                    assert(pre_stakers.contains_key(v));
                                } else {
                                    assert(pre_stakers.contains_key(t));
                                }
                            }
                            let ts = self.nominators.entries()[ni as int].1.targets@;
                            assert forall|v: u64, nom: u64|
                                #![trigger stakers.spec_get(v), self.nominators.spec_get(nom)]
                                stakers.contains_key(v) && (exists|p: int|
                                    0 <= p < ni && (#[trigger] self.nominators.entries()[p]).0
                                        == nom) && self.nominators.spec_get(
                                nom,
                            ).unwrap().targets@.contains(v) implies contribution_counted(
                                stakers.spec_get(v).unwrap(),
                                nom,
                                spec_active_of(*self, nom),
                            ) by {
                                if v != t {
                                    assert(stakers.spec_get(v) == pre_stakers.spec_get(v));
                                    assert(pre_stakers.contains_key(v));
                                } else {
                                    assert(pre_stakers.contains_key(t));
                                    assert(contribution_counted(
                                        pre_stakers.spec_get(t).unwrap(),
                                        nom,
                                        spec_active_of(*self, nom),
                                    ));
                                    let pe = pre_stakers.spec_get(t).unwrap();
                                    let ne = stakers.spec_get(t).unwrap();
                                    if exists|j2: int|
                                        0 <= j2 < pe.others@.len() && #[trigger] pe.others@[j2]
                                            == (IndividualExposure {
                                            who: nom,
                                            value: spec_active_of(*self, nom),
                                        }) {
                                        let j2 = choose|j2: int|
                                            0 <= j2 < pe.others@.len() && #[trigger] pe.others@[j2]
                                                == (IndividualExposure {
                                                who: nom,
                                                value: spec_active_of(*self, nom),
                                            });
                                        assert(ne.others@[j2] == pe.others@[j2]);
                                    }
                                }
                            }
                            assert forall|v: u64|
                                #![trigger stakers.spec_get(v)]
                                stakers.contains_key(v) && self.nominators.entries()[
                                ni as int].1.targets@.subrange(0, tj as int + 1).contains(
                                v,
                            ) implies contribution_counted(
                                stakers.spec_get(v).unwrap(),
                                nom_stash,
                                stake,
                            ) by {
                                let pref = ts.subrange(0, tj as int + 1);
                                let w = choose|w: int| 0 <= w < pref.len() && pref[w] == v;
                                if w < tj as int {
                                    assert(ts.subrange(0, tj as int)[w] == v);
                                    if v != t {
                                        assert(stakers.spec_get(v) == pre_stakers.spec_get(v));
                                        assert(pre_stakers.contains_key(v));
                                    } else {
                                        let pe = pre_stakers.spec_get(t).unwrap();
                                        let ne = stakers.spec_get(t).unwrap();
                                        assert(contribution_counted(pe, nom_stash, stake));
                                        if exists|j2: int|
                                            0 <= j2 < pe.others@.len() && #[trigger] pe.others@[j2]
                                                == (IndividualExposure {
                                                who: nom_stash,
                                                value: stake,
                                            }) {
                                            let j2 = choose|j2: int|
                                                0 <= j2 < pe.others@.len()
                                                    && #[trigger] pe.others@[j2]
                                                    == (IndividualExposure {
                                                    who: nom_stash,
                                                    value: stake,
                                                });
                                            assert(ne.others@[j2] == pe.others@[j2]);
                                        }
                                    }
                                } else {
                                    assert(v == ts[tj as int]);
                                    assert(v == t);
                                    let ne = stakers.spec_get(t).unwrap();
                                    if stake <= u64::MAX - pre_stakers.spec_get(
                                        t,
                                    ).unwrap().total {
                                        assert(ne.others@.last() == (IndividualExposure {
                                            who: nom_stash,
                                            value: stake,
                                        }));
                                    }
                                }
                            }
                        }
                    },
                    None => {
                        // the target holds no validator intent and is not
                        // invulnerable: the nomination simply lands nowhere
                        proof {
                            assert forall|p: int|
                                0 <= p < nc implies #[trigger] stakers.contains_key(
                                cands@[p],
                            ) by {
                                assert(pre_stakers.contains_key(cands@[p]));
                            }
                            let ts = self.nominators.entries()[ni as int].1.targets@;
                            assert forall|v: u64|
                                #![trigger stakers.spec_get(v)]
                                stakers.contains_key(v) && ts.subrange(0, tj as int + 1).contains(
                                v,
                            ) implies contribution_counted(
                                stakers.spec_get(v).unwrap(),
                                nom_stash,
                                stake,
                            ) by {
                                let pref = ts.subrange(0, tj as int + 1);
                                let w = choose|w: int| 0 <= w < pref.len() && pref[w] == v;
                                if w < tj as int {
                                    assert(ts.subrange(0, tj as int)[w] == v);
                                } else {
                                    assert(v == t);
                                    assert(!pre_stakers.contains_key(t));
                                    assert(false);
                                }
                            }
                        }
                    },
                }
                tj += 1;
            }
            proof {
                let ts = self.nominators.entries()[ni as int].1.targets@;
                assert(ts.subrange(0, tcount as int) =~= ts);
                self.nominators.lemma_at(nom_stash, ni as int);
                assert forall|v: u64, nom: u64|
                    #![trigger stakers.spec_get(v), self.nominators.spec_get(nom)]
                    stakers.contains_key(v) && (exists|p: int|
                        0 <= p < ni + 1 && (#[trigger] self.nominators.entries()[p]).0 == nom)
                        && self.nominators.spec_get(nom).unwrap().targets@.contains(v) implies
                    contribution_counted(
                    stakers.spec_get(v).unwrap(),
                    nom,
                    spec_active_of(*self, nom),
                ) by {
                    let p = choose|p: int|
                        0 <= p < ni + 1 && (#[trigger] self.nominators.entries()[p]).0 == nom;
                    if p < ni {
                        assert(exists|p2: int|
                            0 <= p2 < ni && (#[trigger] self.nominators.entries()[p2]).0 == nom);
                    } else {
                        assert(nom == nom_stash);
                        assert(self.nominators.spec_get(nom_stash).unwrap()
                            == self.nominators.entries()[ni as int].1);
                        assert(ts.contains(v));
                    }
                }
            }
            ni += 1;
        }
        proof {
            assert forall|v: u64, nom: u64|
                #![trigger stakers.spec_get(v), self.nominators.spec_get(nom)]
                stakers.contains_key(v) && self.nominators.contains_key(nom)
                    && self.nominators.spec_get(nom).unwrap().targets@.contains(v) implies
                contribution_counted(
                stakers.spec_get(v).unwrap(),
                nom,
                spec_active_of(*self, nom),
            ) by {
                let p = choose|p: int|
                    0 <= p < self.nominators.entries().len() && (
                    #[trigger] self.nominators.entries()[p]).0 == nom;
                assert(exists|p2: int|
                    0 <= p2 < nn && (#[trigger] self.nominators.entries()[p2]).0 == nom);
            }
        }
        // rank candidates by total backing stake
        let mut pairs: Vec<(u64, u64)> = Vec::new();
        let mut pi: usize = 0;
        while pi < nc
            invariant
                nc == cands@.len(),
                pi <= nc,
                cands@.no_duplicates(),
                stakers.wf(),
                forall|p: int| 0 <= p < nc ==> #[trigger] stakers.contains_key(cands@[p]),
                forall|v: u64|
                    #[trigger] stakers.contains_key(v) ==> ({
                        let x = stakers.spec_get(v).unwrap();
                        &&& x.wf()
                        &&& x.own == spec_active_of(*self, v)
                    }),
                pairs@.len() == pi,
                forall|p: int|
                    0 <= p < pi ==> ({
                        &&& (#[trigger] pairs@[p]).0 == cands@[p]
                        &&& stakers.contains_key(cands@[p])
                        &&& pairs@[p].1 == stakers.spec_get(cands@[p]).unwrap().total
                    }),
            decreases nc - pi,
        {
            let stash = cands[pi];
            let total = match stakers.get(stash) {
                Some(e) => e.total,
                None => 0,
            };
            pairs.push((stash, total));
            pi += 1;
        }
        proof {
            assert forall|p: int, q: int|
                0 <= p < q < pairs@.len() implies (#[trigger] pairs@[p]).0 != (
            #[trigger] pairs@[q]).0 by {
                assert(cands@[p] != cands@[q]);
            }
        }
        let ranked = rank_candidates(&pairs);
        // take the best-backed candidates, up to the configured count
        let want: usize = if (self.validator_count as u64) < (ranked.len() as u64) {
            self.validator_count as usize
        } else {
            ranked.len()
        };
        let mut elected: Vec<u64> = Vec::new();
        let mut new_stakers: KvMap<Exposure> = KvMap::new();
        let mut new_clipped: KvMap<Exposure> = KvMap::new();
        let mut new_prefs: KvMap<ValidatorPrefs> = KvMap::new();
        let mut total_stake: u64 = 0;
        let mut ei: usize = 0;
        while ei < want
            invariant
                self.wf(),
                want <= ranked@.len(),
                ei <= want,
                stakers.wf(),
                new_stakers.wf(),
                new_clipped.wf(),
                new_prefs.wf(),
                elected@.len() == ei,
                forall|i2: int, j2: int|
                    0 <= i2 < j2 < ranked@.len() ==> ranks_before(
                        #[trigger] ranked@[i2],
                        #[trigger] ranked@[j2],
                    ),
                forall|i2: int| 0 <= i2 < ranked@.len() ==> pairs@.contains(#[trigger] ranked@[i2]),
                forall|p: int, q: int|
                    0 <= p < q < ranked@.len() ==> (#[trigger] ranked@[p]).0 != (
                    #[trigger] ranked@[q]).0,
                forall|j2: int|
                    ei <= j2 < ranked@.len() ==> (#[trigger] stakers.contains_key(ranked@[j2].0)
                        && stakers.spec_get(ranked@[j2].0).unwrap().total == ranked@[j2].1),
                forall|v: u64|
                    #[trigger] new_stakers.contains_key(v) ==> new_stakers.spec_get(
                        v,
                    ).unwrap().wf(),
                forall|v: u64|
                    #[trigger] stakers.contains_key(v) ==> ({
                        let x = stakers.spec_get(v).unwrap();
                        &&& x.wf()
                        &&& x.own == spec_active_of(*self, v)
                    }),
                forall|v: u64, nom: u64|
                    #![trigger stakers.spec_get(v), self.nominators.spec_get(nom)]
                    stakers.contains_key(v) && self.nominators.contains_key(nom)
                        && self.nominators.spec_get(nom).unwrap().targets@.contains(v)
                        ==> contribution_counted(
                        stakers.spec_get(v).unwrap(),
                        nom,
                        spec_active_of(*self, nom),
                    ),
                forall|p: int, nom: u64|
                    #![trigger new_stakers.spec_get(elected@[p]), self.nominators.spec_get(nom)]
                    0 <= p < ei && self.nominators.contains_key(nom)
                        && self.nominators.spec_get(nom).unwrap().targets@.contains(elected@[p])
                        ==> contribution_counted(
                        new_stakers.spec_get(elected@[p]).unwrap(),
                        nom,
                        spec_active_of(*self, nom),
                    ),
                total_stake as int == sat_stake_sum(new_stakers, elected@, ei as int),
                forall|p: int| 0 <= p < ei ==> #[trigger] elected@[p] == ranked@[p].0,
                forall|p: int|
                    0 <= p < ei ==> (#[trigger] new_stakers.contains_key(elected@[p])
                        && new_clipped.contains_key(elected@[p]) && new_prefs.contains_key(
                        elected@[p],
                    )),
                forall|p: int|
                    0 <= p < ei ==> ({
                        let x = (#[trigger] new_stakers.spec_get(elected@[p])).unwrap();
                        &&& x.wf()
                        &&& x.own == spec_active_of(*self, elected@[p])
                        &&& x.total == ranked@[p].1
                    }),
                forall|v: u64|
                    #[trigger] new_clipped.contains_key(v) ==> new_clipped.spec_get(
                        v,
                    ).unwrap().wf(),
                forall|v: u64|
                    #[trigger] new_prefs.contains_key(v) ==> new_prefs.spec_get(
                        v,
                    ).unwrap().commission.wf(),
                forall|p: int|
                    0 <= p < ei ==> #[trigger] new_prefs.spec_get(elected@[p]) == Some(
                        if self.validators.contains_key(elected@[p]) {
                            self.validators.spec_get(elected@[p]).unwrap()
                        } else {
                            ValidatorPrefs { commission: Perbill { parts: 0 } }
                        },
                    ),
            decreases want - ei,
        {
            let stash = ranked[ei].0;
            let exp = match stakers.remove(stash) {
                Some(e) => e,
                None => {
                    proof {
                        assert(false);
                    }
                    Exposure { total: 0, own: 0, others: Vec::new() }
                },
            };
            let ghost pre_stakers_sel = stakers;
            let ghost pre_new_stakers = new_stakers;
            let ghost pre_elected = elected@;
            let clipped = clip_exposure(&exp);
            let prefs = match self.validators.get(stash) {
                Some(p) => *p,
                None => ValidatorPrefs { commission: Perbill { parts: 0 } },
            };
            total_stake = crate::types::saturating_add_u64(total_stake, exp.total);
            new_stakers.insert(stash, exp);
            new_clipped.insert(stash, clipped);
            new_prefs.insert(stash, prefs);
            elected.push(stash);
            proof {
                assert forall|j2: int|
                    ei + 1 <= j2 < ranked@.len() implies (#[trigger] stakers.contains_key(
                    ranked@[j2].0,
                ) && stakers.spec_get(ranked@[j2].0).unwrap().total == ranked@[j2].1) by {
                    assert(ranked@[ei as int].0 != ranked@[j2].0);
                }
                lemma_sat_stake_sum_agree(
                    new_stakers,
                    pre_new_stakers,
                    elected@,
                    pre_elected,
                    ei as int,
                );
                assert(new_stakers.spec_get(elected@[ei as int]).unwrap() == exp);
                assert forall|p: int, nom: u64|
                    #![trigger new_stakers.spec_get(elected@[p]), self.nominators.spec_get(nom)]
                    0 <= p < ei + 1 && self.nominators.contains_key(nom)
                        && self.nominators.spec_get(nom).unwrap().targets@.contains(
                        elected@[p],
                    ) implies contribution_counted(
                    new_stakers.spec_get(elected@[p]).unwrap(),
                    nom,
                    spec_active_of(*self, nom),
                ) by {
                    if p < ei {
                        assert(elected@[p] == ranked@[p].0);
                        assert(ranked@[p].0 != ranked@[ei as int].0);
                    } else {
                        assert(elected@[p] == stash);
                        assert(pre_stakers_sel.contains_key(stash) || true);
                        assert(contribution_counted(exp, nom, spec_active_of(*self, nom)));
                    }
                }
            }
            ei += 1;
        }
        // persist the snapshot, advance the era, prune and apply slashes
        let ne: u32 = match self.current_era {
            Some(e) => {
                if e < u32::MAX {
                    e + 1
                } else {
                    u32::MAX
                }
            },
            None => 0,
        };
        let out = crate::types::copy_vec_u64(&elected);
        let snap = EraSnapshot {
            elected,
            stakers: new_stakers,
            stakers_clipped: new_clipped,
            validator_prefs: new_prefs,
            reward_points: EraRewardPoints { total: 0, individual: KvMap::new() },
            validator_reward: 0,
            total_stake,
            start_session_index: session_index,
            claims: KvMap::new(),
        };
        proof {
            assert(crate::types::sum_points(snap.reward_points.individual.entries()) == 0);
        }
        self.eras.insert(ne as u64, snap);
        self.current_era = Some(ne);
        proof {
            lemma_wf_after_snapshot(*old(self), *self, ne as u64, snap);
        }
        let cutoff: u64 = if ne > self.history_depth {
            (ne - self.history_depth) as u64
        } else {
            0
        };
        self.prune_eras(cutoff);
        let ghost pre_apply = *self;
        if ne >= self.slash_defer_duration {
            self.apply_pending_slashes(ne - self.slash_defer_duration);
        }
        proof {
            if old(self).unapplied_slashes.spec_len() == 0 {
                let key = if ne >= self.slash_defer_duration {
                    ((ne - self.slash_defer_duration) as u64)
                } else {
                    0u64
                };
                assert(!pre_apply.unapplied_slashes.contains_key(key)) by {
                    if pre_apply.unapplied_slashes.contains_key(key) {
                        let i = choose|i: int|
                            0 <= i < pre_apply.unapplied_slashes.entries().len() && (
                            #[trigger] pre_apply.unapplied_slashes.entries()[i]).0 == key;
                    }
                }
                if ne >= self.slash_defer_duration {
                    let start = choose|start: Staking|
                        #[trigger] crate::slashing::pending_applied_from(
                            pre_apply,
                            start,
                            *self,
                            ((ne - self.slash_defer_duration) as u32),
                        );
                    assert(crate::slashing::slashes_applied(
                        start,
                        *self,
                        Seq::<crate::types::UnappliedSlash>::empty(),
                        0,
                    ));
                    assert(*self == start);
                }
            }
        }
        Ok(out)
    }
}

} // verus!
