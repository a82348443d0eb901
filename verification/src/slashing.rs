use vstd::prelude::*;
use crate::state::Staking;
use crate::ledger_ops::{lemma_wf_ledger_update, min64, min_u64};
use crate::types::{
    lemma_sum_amounts_push, lemma_sum_exposure_prefix, lemma_sum_unlock_drop_first,
    lemma_sum_unlock_nonneg, lemma_sum_unlock_update, saturating_add_u64, sum_amounts, sum_unlock,
    Error, Perbill, UnappliedSlash, UnlockChunk,
};

verus! {

/// The unlocking queue after drawing `rem` from it, consuming the oldest
/// chunks first; a partially-consumed chunk keeps its remainder.
pub open spec fn slash_chunks(s: Seq<UnlockChunk>, rem: u64) -> Seq<UnlockChunk>
    decreases s.len(),
{
    if s.len() == 0 || rem == 0 {
        s
    } else if rem >= s[0].value {
        slash_chunks(s.subrange(1, s.len() as int), (rem - s[0].value) as u64)
    } else {
        s.update(0, (UnlockChunk { value: (s[0].value - rem) as u64, era: s[0].era }))
    }
}

/// The amount a draw of `rem` actually takes from the unlocking queue.
pub open spec fn slash_taken(s: Seq<UnlockChunk>, rem: u64) -> int
    decreases s.len(),
{
    if s.len() == 0 || rem == 0 {
        0
    } else if rem >= s[0].value {
        s[0].value + slash_taken(s.subrange(1, s.len() as int), (rem - s[0].value) as u64)
    } else {
        rem as int
    }
}

/// Indices strictly increase.
pub open spec fn sorted_unique(s: Seq<u32>) -> bool {
    forall|i: int, j: int| 0 <= i < j < s.len() ==> s[i] < s[j]
}

/// The entries from position `i` on, with the listed positions removed.
pub open spec fn remove_listed(s: Seq<UnappliedSlash>, idx: Seq<u32>, i: int) -> Seq<
    UnappliedSlash,
>
    decreases s.len() - i,
{
    if i < 0 || i >= s.len() {
        Seq::empty()
    } else if idx.contains(i as u32) {
        remove_listed(s, idx, i + 1)
    } else {
        seq![s[i]] + remove_listed(s, idx, i + 1)
    }
}

/// The exact effect of slashing `stash` by up to `amount`, as `do_slash`
/// performs it: a missing stash changes nothing; otherwise its ledger loses
/// the amount from active stake first and then from the oldest chunks, a
/// drained stash loses its intents, and nothing else moves.
pub open spec fn do_slash_rel(pre: Staking, post: Staking, stash: u64, amount: u64) -> bool {
    if !pre.bonded.contains_key(stash) {
        post == pre
    } else {
        let c = pre.bonded.spec_get(stash).unwrap();
        let l = pre.ledger.spec_get(c).unwrap();
        let a = crate::ledger_ops::min64(amount, l.active);
        let rem = (amount - a) as u64;
        let removed = a as int + slash_taken(l.unlocking@, rem);
        let nl = post.ledger.spec_get(c).unwrap();
        &&& post.ledger.contains_key(c)
        &&& nl.stash == stash
        &&& nl.active == l.active - a
        &&& nl.unlocking@ == slash_chunks(l.unlocking@, rem)
        &&& nl.total as int == l.total - removed
        &&& (nl.total == 0 ==> !post.validators.contains_key(stash)
            && !post.nominators.contains_key(stash))
        &&& forall|k: u64| k != c ==> #[trigger] post.ledger.spec_get(k) == pre.ledger.spec_get(k)
        &&& forall|k: u64| #[trigger] post.ledger.contains_key(k) <==> pre.ledger.contains_key(k)
        &&& forall|k: u64|
            k != stash ==> (#[trigger] post.validators.spec_get(k) == pre.validators.spec_get(k)
                && post.nominators.spec_get(k) == pre.nominators.spec_get(k))
        &&& post == (Staking {
            ledger: post.ledger,
            validators: post.validators,
            nominators: post.nominators,
            ..pre
        })
    }
}

/// The nominator slashes of one record, applied in order from position `i`.
pub open spec fn others_slashed(
    pre: Staking,
    post: Staking,
    others: Seq<(u64, u64)>,
    i: int,
) -> bool
    decreases others.len() - i,
{
    if i < 0 || i >= others.len() {
        post == pre
    } else {
        exists|mid: Staking|
            #[trigger] do_slash_rel(pre, mid, others[i].0, others[i].1) && others_slashed(
                mid,
                post,
                others,
                i + 1,
            )
    }
}

/// The reporter payouts of one record, credited in order from position `i`.
pub open spec fn reporters_paid(
    pre: Staking,
    post: Staking,
    reporters: Seq<u64>,
    i: int,
    per: u64,
) -> bool
    decreases reporters.len() - i,
{
    if i < 0 || i >= reporters.len() {
        post == pre
    } else {
        exists|mid: Staking|
            #[trigger] crate::state::deposit_rel(pre, mid, reporters[i], per) && reporters_paid(
                mid,
                post,
                reporters,
                i + 1,
                per,
            )
    }
}

/// One recorded slash fully applied: the validator's own slash, then each
/// nominator's, then an equal split of the recorded payout to each reporter.
pub open spec fn one_slash_applied(pre: Staking, post: Staking, us: UnappliedSlash) -> bool {
    exists|mid1: Staking, mid2: Staking|
        {
            &&& #[trigger] do_slash_rel(pre, mid1, us.validator, us.own)
            &&& #[trigger] others_slashed(mid1, mid2, us.others@, 0)
            &&& reporters_paid(
                mid2,
                post,
                us.reporters@,
                0,
                if us.reporters@.len() == 0 {
                    0u64
                } else {
                    (us.payout as int / us.reporters@.len() as int) as u64
                },
            )
        }
}

/// A whole pending list applied in order, from position `i`.
pub open spec fn slashes_applied(
    pre: Staking,
    post: Staking,
    lst: Seq<UnappliedSlash>,
    i: int,
) -> bool
    decreases lst.len() - i,
{
    if i < 0 || i >= lst.len() {
        post == pre
    } else {
        exists|mid: Staking|
            #[trigger] one_slash_applied(pre, mid, lst[i]) && slashes_applied(
                mid,
                post,
                lst,
                i + 1,
            )
    }
}

/// `start` is `pre` with its pending list for `era` removed, and `post` is
/// the fold of that list's applications over `start`.
pub open spec fn pending_applied_from(pre: Staking, start: Staking, post: Staking, era: u32) -> bool {
    &&& start == (Staking { unapplied_slashes: start.unapplied_slashes, ..pre })
    &&& !start.unapplied_slashes.contains_key(era as u64)
    &&& (forall|e: u64|
        e != era as u64 ==> #[trigger] start.unapplied_slashes.spec_get(e)
            == pre.unapplied_slashes.spec_get(e))
    &&& slashes_applied(
        start,
        post,
        if pre.unapplied_slashes.contains_key(era as u64) {
            pre.unapplied_slashes.spec_get(era as u64).unwrap()@
        } else {
            Seq::<UnappliedSlash>::empty()
        },
        0,
    )
}

/// Appending one applied slash extends the fold.
proof fn lemma_slashes_applied_push(
    a: Staking,
    b: Staking,
    c: Staking,
    s: Seq<UnappliedSlash>,
    x: UnappliedSlash,
    i: int,
)
    requires
        0 <= i <= s.len(),
        slashes_applied(a, b, s, i),
        one_slash_applied(b, c, x),
    ensures
        slashes_applied(a, c, s.push(x), i),
    decreases s.len() - i,
{
    if i >= s.len() {
        assert(b == a);
        assert(s.push(x)[i] == x);
        assert(slashes_applied(c, c, s.push(x), i + 1));
    } else {
        let mid = choose|mid: Staking|
            #[trigger] one_slash_applied(a, mid, s[i]) && slashes_applied(mid, b, s, i + 1);
        lemma_slashes_applied_push(mid, b, c, s, x, i + 1);
        assert(s.push(x)[i] == s[i]);
    }
}

/// Appending one slashed nominator extends the fold.
proof fn lemma_others_slashed_push(
    a: Staking,
    b: Staking,
    c: Staking,
    s: Seq<(u64, u64)>,
    x: (u64, u64),
    i: int,
)
    requires
        0 <= i <= s.len(),
        others_slashed(a, b, s, i),
        do_slash_rel(b, c, x.0, x.1),
    ensures
        others_slashed(a, c, s.push(x), i),
    decreases s.len() - i,
{
    if i >= s.len() {
        assert(b == a);
        assert(s.push(x)[i] == x);
        assert(others_slashed(c, c, s.push(x), i + 1));
    } else {
        let mid = choose|mid: Staking|
            #[trigger] do_slash_rel(a, mid, s[i].0, s[i].1) && others_slashed(mid, b, s, i + 1);
        lemma_others_slashed_push(mid, b, c, s, x, i + 1);
        assert(s.push(x)[i] == s[i]);
    }
}

/// Appending one paid reporter extends the fold.
proof fn lemma_reporters_paid_push(
    a: Staking,
    b: Staking,
    c: Staking,
    s: Seq<u64>,
    x: u64,
    i: int,
    per: u64,
)
    requires
        0 <= i <= s.len(),
        reporters_paid(a, b, s, i, per),
        crate::state::deposit_rel(b, c, x, per),
    ensures
        reporters_paid(a, c, s.push(x), i, per),
    decreases s.len() - i,
{
    if i >= s.len() {
        assert(b == a);
        assert(s.push(x)[i] == x);
        assert(reporters_paid(c, c, s.push(x), i + 1, per));
    } else {
        let mid = choose|mid: Staking|
            #[trigger] crate::state::deposit_rel(a, mid, s[i], per) && reporters_paid(
                mid,
                b,
                s,
                i + 1,
                per,
            );
        lemma_reporters_paid_push(mid, b, c, s, x, i + 1, per);
        assert(s.push(x)[i] == s[i]);
    }
}

impl Staking {
    /// Reduce a stash's bonded funds by up to `amount`: active stake first,
    /// then the unlocking queue from its oldest chunk. The amount actually
    /// removed is added to `slashed_imbalance`. A stash left with nothing is
    /// implicitly chilled. Reporters are rewarded only when a deferred slash
    /// is applied, so `reward_payout` is threaded through untouched here.
    pub fn do_slash(
        &mut self,
        stash: u64,
        amount: u64,
        reward_payout: &mut u64,
        slashed_imbalance: &mut u64,
    )
        requires
            old(self).wf(),
        ensures
            final(self).wf(),
            do_slash_rel(*old(self), *final(self), stash, amount),
            *final(reward_payout) == *old(reward_payout),
            !old(self).bonded.contains_key(stash) ==> (*final(self) == *old(self) && *final(slashed_imbalance) == *old(slashed_imbalance)),
            old(self).bonded.contains_key(stash) ==> ({
                let c = old(self).bonded.spec_get(stash).unwrap();
                let l = old(self).ledger.spec_get(c).unwrap();
                let a = min64(amount, l.active);
                let rem = (amount - a) as u64;
                let removed = a as int + slash_taken(l.unlocking@, rem);
                let nl = final(self).ledger.spec_get(c).unwrap();
                &&& nl.stash == stash
                &&& nl.active == l.active - a
                &&& nl.unlocking@ == slash_chunks(l.unlocking@, rem)
                &&& nl.total as int == l.total - removed
                &&& *final(slashed_imbalance) as int == if *old(slashed_imbalance) as int
                    + removed <= u64::MAX as int {
                    *old(slashed_imbalance) as int + removed
                } else {
                    u64::MAX as int
                }
                &&& (nl.total == 0 ==> !final(self).validators.contains_key(stash) && !final(self).nominators.contains_key(stash))
                &&& forall|k: u64|
                    k != c ==> #[trigger] final(self).ledger.spec_get(k) == old(
                        self,
                    ).ledger.spec_get(k)
                &&& forall|k: u64|
                    #[trigger] final(self).ledger.contains_key(k) <==> old(
                        self,
                    ).ledger.contains_key(k)
                &&& forall|k: u64|
                    k != stash ==> (#[trigger] final(self).validators.spec_get(k) == old(
                        self,
                    ).validators.spec_get(k) && final(self).nominators.spec_get(k) == old(
                        self,
                    ).nominators.spec_get(k))
                &&& *final(self) == (Staking {
                    ledger: final(self).ledger,
                    validators: final(self).validators,
                    nominators: final(self).nominators,
                    ..*old(self)
                })
            }),
    {
        let c = match self.bonded.get(stash) {
            Some(x) => *x,
            None => {
                return ;
            },
        };
        let mut l = self.ledger.remove(c).unwrap();
        let ghost l0 = l;
        proof {
            lemma_sum_unlock_nonneg(l.unlocking@);
        }
        let t0 = l.total;
        let a = min_u64(amount, l.active);
        l.active = l.active - a;
        l.total = l.total - a;
        let ghost rem0 = (amount - a) as u64;
        let mut rem = amount - a;
        while rem > 0 && l.unlocking.len() > 0
            invariant
                l.stash == l0.stash,
                rem <= rem0,
                l.total as int == l.active as int + sum_unlock(l.unlocking@),
                l.active == l0.active - a,
                l.total as int == l0.total - a - (rem0 - rem),
                forall|i: int, j: int|
                    0 <= i < j < l.unlocking@.len() ==> (#[trigger] l.unlocking@[i]).era < (
                    #[trigger] l.unlocking@[j]).era,
                slash_chunks(l0.unlocking@, rem0) == slash_chunks(l.unlocking@, rem),
                slash_taken(l0.unlocking@, rem0) == (rem0 - rem) + slash_taken(
                    l.unlocking@,
                    rem,
                ),
            decreases l.unlocking.len() + rem,
        {
            let c0 = l.unlocking[0];
            let ghost s = l.unlocking@;
            proof {
                lemma_sum_unlock_drop_first(s);
                lemma_sum_unlock_nonneg(s.subrange(1, s.len() as int));
            }
            if rem >= c0.value {
                l.unlocking.remove(0);
                proof {
                    assert(l.unlocking@ =~= s.subrange(1, s.len() as int));
                }
                l.total = l.total - c0.value;
                rem = rem - c0.value;
            } else {
                let nc = UnlockChunk { value: c0.value - rem, era: c0.era };
                l.unlocking.remove(0);
                l.unlocking.insert(0, nc);
                proof {
                    assert(l.unlocking@ =~= s.update(0, nc));
                    lemma_sum_unlock_update(s, 0, nc);
                }
                l.total = l.total - rem;
                rem = 0;
            }
        }
        let removed = t0 - l.total;
        *slashed_imbalance = saturating_add_u64(*slashed_imbalance, removed);
        let now_empty = l.total == 0;
        self.ledger.insert(c, l);
        proof {
            lemma_wf_ledger_update(*old(self), *self, c, l);
        }
        if now_empty {
            let ghost mid = *self;
            self.validators.remove(stash);
            self.nominators.remove(stash);
            proof {
                let post = *self;
                assert forall|s2: u64| #[trigger]
                    post.validators.contains_key(s2) implies !post.nominators.contains_key(
                    s2,
                ) by {
                    assert(mid.validators.contains_key(s2));
                }
                assert forall|s2: u64| post.validators.contains_key(s2) implies (
                #[trigger] post.validators.spec_get(s2)).unwrap().commission.wf() by {
                    assert(mid.validators.contains_key(s2));
                }
                assert forall|s2: u64| post.nominators.contains_key(s2) implies (
                #[trigger] post.nominators.spec_get(s2)).unwrap().wf() by {
                    assert(mid.nominators.contains_key(s2));
                }
                assert forall|c2: u64| post.ledger.contains_key(c2) implies (
                #[trigger] post.ledger.spec_get(c2)).unwrap().wf() by {
                    assert(mid.ledger.contains_key(c2));
                }
            }
        }
    }

    /// Record a deferred slash for an offence by `validator` in `era`, sized
    /// proportionally from the era's unclipped exposure; reporters are noted
    /// together with their payout, drawn as the configured fraction of the
    /// whole slash.
    pub fn record_offence(
        &mut self,
        era: u32,
        validator: u64,
        fraction: Perbill,
        reporters: Vec<u64>,
    ) -> (r: Result<(), Error>)
        requires
            old(self).wf(),
            fraction.wf(),
        ensures
            final(self).wf(),
            r is Err ==> *final(self) == *old(self),
            r is Err <==> !(old(self).eras.contains_key(era as u64) && old(self).eras.spec_get(
                era as u64,
            ).unwrap().stakers.contains_key(validator)),
            r is Err ==> r == Err::<(), Error>(Error::InvalidEraToReward),
            r is Ok ==> ({
                let exp = old(self).eras.spec_get(era as u64).unwrap().stakers.spec_get(
                    validator,
                ).unwrap();
                let prior = if old(self).unapplied_slashes.contains_key(era as u64) {
                    old(self).unapplied_slashes.spec_get(era as u64).unwrap()@
                } else {
                    Seq::<UnappliedSlash>::empty()
                };
                let lst = final(self).unapplied_slashes.spec_get(era as u64).unwrap()@;
                let us = lst.last();
                &&& final(self).unapplied_slashes.contains_key(era as u64)
                &&& lst.len() == prior.len() + 1
                &&& forall|i: int| 0 <= i < prior.len() ==> lst[i] == prior[i]
                &&& us.validator == validator
                &&& us.own as int == fraction.spec_mul(exp.own)
                &&& us.others@.len() == exp.others@.len()
                &&& forall|i: int|
                    0 <= i < exp.others@.len() ==> ((#[trigger] us.others@[i]).0
                        == exp.others@[i].who && us.others@[i].1 as int == fraction.spec_mul(
                        exp.others@[i].value,
                    ))
                &&& us.reporters@ == reporters@
                &&& us.payout as int == old(self).slash_reward_fraction.spec_mul(
                    ((us.own + sum_amounts(us.others@)) as u64),
                )
                &&& forall|e: u64|
                    e != era as u64 ==> #[trigger] final(self).unapplied_slashes.spec_get(e)
                        == old(self).unapplied_slashes.spec_get(e)
                &&& *final(self) == (Staking {
                    unapplied_slashes: final(self).unapplied_slashes,
                    ..*old(self)
                })
            }),
    {
        let era_key = era as u64;
        let (own_slash, others_slash, total_slash) = {
            let snap = match self.eras.get(era_key) {
                Some(s) => s,
                None => {
                    return Err(Error::InvalidEraToReward);
                },
            };
            let exp = match snap.stakers.get(validator) {
                Some(e) => e,
                None => {
                    return Err(Error::InvalidEraToReward);
                },
            };
            let own_slash = fraction.mul_floor(exp.own);
            let mut others_slash: Vec<(u64, u64)> = Vec::new();
            let mut acc: u64 = own_slash;
            let n = exp.others.len();
            let mut i: usize = 0;
            proof {
                assert(exp.others@.subrange(0, 0) =~= Seq::<
                    crate::types::IndividualExposure,
                >::empty());
            }
            while i < n
                invariant
                    n == exp.others@.len(),
                    i <= n,
                    exp.wf(),
                    fraction.wf(),
                    own_slash <= exp.own,
                    others_slash@.len() == i,
                    forall|j: int|
                        0 <= j < i ==> ((#[trigger] others_slash@[j]).0 == exp.others@[j].who
                            && others_slash@[j].1 as int == fraction.spec_mul(
                            exp.others@[j].value,
                        )),
                    acc as int == own_slash + sum_amounts(others_slash@),
                    acc as int <= exp.own + sum_exposure_prefix_value(exp.others@, i as int),
                decreases n - i,
            {
                let e = exp.others[i];
                let sl = fraction.mul_floor(e.value);
                proof {
                    lemma_sum_exposure_prefix(exp.others@, i as int + 1);
                    assert(exp.others@.subrange(0, i as int + 1).drop_last() =~= exp.others@.subrange(
                        0,
                        i as int,
                    ));
                    assert(exp.others@.subrange(0, i as int + 1).last() == exp.others@[i as int]);
                    lemma_sum_amounts_push(others_slash@, (e.who, sl));
                }
                others_slash.push((e.who, sl));
                acc = acc + sl;
                i += 1;
            }
            (own_slash, others_slash, acc)
        };
        let payout = self.slash_reward_fraction.mul_floor(total_slash);
        let us = UnappliedSlash { validator, own: own_slash, others: others_slash, reporters, payout };
        let mut lst = match self.unapplied_slashes.remove(era_key) {
            Some(v) => v,
            None => Vec::new(),
        };
        lst.push(us);
        self.unapplied_slashes.insert(era_key, lst);
        proof {
            let post = *self;
            assert forall|c2: u64| post.ledger.contains_key(c2) implies (
            #[trigger] post.ledger.spec_get(c2)).unwrap().wf() by {
                assert(old(self).ledger.contains_key(c2));
            }
        }
        Ok(())
    }
}

impl Staking {
    /// Root-only: remove the pending slashes at the given (strictly
    /// increasing) positions in `era`'s list, while the era's dispute window
    /// is still open.
    pub fn cancel_deferred_slash(&mut self, era: u32, slash_indices: Vec<u32>) -> (r: Result<
        (),
        Error,
    >)
        requires
            old(self).wf(),
        ensures
            final(self).wf(),
            r is Err ==> *final(self) == *old(self),
            r == ({
                let lst = if old(self).unapplied_slashes.contains_key(era as u64) {
                    old(self).unapplied_slashes.spec_get(era as u64).unwrap()@
                } else {
                    Seq::<UnappliedSlash>::empty()
                };
                if !sorted_unique(slash_indices@) {
                    Err::<(), Error>(Error::NotSortedAndUnique)
                } else if old(self).era_now() as int >= era as int + old(
                    self,
                ).slash_defer_duration as int {
                    Err::<(), Error>(Error::ErrorsAlreadyApplied)
                } else if exists|i: int|
                    0 <= i < slash_indices@.len() && (#[trigger] slash_indices@[i]) as int
                        >= lst.len() {
                    Err::<(), Error>(Error::InvalidSlashIndex)
                } else {
                    Ok::<(), Error>(())
                }
            }),
            r is Ok ==> ({
                let lst = if old(self).unapplied_slashes.contains_key(era as u64) {
                    old(self).unapplied_slashes.spec_get(era as u64).unwrap()@
                } else {
                    Seq::<UnappliedSlash>::empty()
                };
                &&& final(self).unapplied_slashes.contains_key(era as u64)
                &&& final(self).unapplied_slashes.spec_get(era as u64).unwrap()@
                    == remove_listed(lst, slash_indices@, 0)
                &&& forall|e: u64|
                    e != era as u64 ==> #[trigger] final(self).unapplied_slashes.spec_get(e)
                        == old(self).unapplied_slashes.spec_get(e)
                &&& *final(self) == (Staking {
                    unapplied_slashes: final(self).unapplied_slashes,
                    ..*old(self)
                })
            }),
    {
        if !is_sorted_unique(&slash_indices) {
            return Err(Error::NotSortedAndUnique);
        }
        let era_now = self.era_index();
        if era_now as u64 >= era as u64 + self.slash_defer_duration as u64 {
            return Err(Error::ErrorsAlreadyApplied);
        }
        let len_now: usize = match self.unapplied_slashes.get(era as u64) {
            Some(v) => v.len(),
            None => 0,
        };
        let ni = slash_indices.len();
        if ni > 0 {
            if slash_indices[ni - 1] as usize >= len_now {
                return Err(Error::InvalidSlashIndex);
            }
            proof {
                assert forall|i: int|
                    0 <= i < slash_indices@.len() implies (slash_indices@[i] as int) < len_now by {
                    if i < ni - 1 {
                        assert(slash_indices@[i] < slash_indices@[ni - 1]);
                    }
                }
            }
        }
        let mut src = match self.unapplied_slashes.remove(era as u64) {
            Some(v) => v,
            None => Vec::new(),
        };
        let ghost s0 = src@;
        let n = src.len();
        let mut kept: Vec<UnappliedSlash> = Vec::new();
        let mut i: usize = 0;
        proof {
            assert(src@ =~= s0.subrange(0, n as int));
            assert(kept@ + remove_listed(s0, slash_indices@, 0) =~= remove_listed(
                s0,
                slash_indices@,
                0,
            ));
        }
        while i < n
            invariant
                n == s0.len(),
                i <= n,
                src@ == s0.subrange(i as int, n as int),
                remove_listed(s0, slash_indices@, 0) == kept@ + remove_listed(
                    s0,
                    slash_indices@,
                    i as int,
                ),
            decreases n - i,
        {
            let ghost kept0 = kept@;
            let item = src.remove(0);
            proof {
                assert(item == s0[i as int]);
                assert(src@ =~= s0.subrange(i as int + 1, n as int));
            }
            if !contains_index(&slash_indices, i as u32) {
                kept.push(item);
                proof {
                    assert(kept@ + remove_listed(s0, slash_indices@, i as int + 1)
                        =~= kept0 + (seq![s0[i as int]] + remove_listed(
                        s0,
                        slash_indices@,
                        i as int + 1,
                    )));
                }
            }
            i += 1;
        }
        proof {
            assert(kept@ + remove_listed(s0, slash_indices@, n as int) =~= kept@);
        }
        self.unapplied_slashes.insert(era as u64, kept);
        proof {
            let post = *self;
            assert forall|c2: u64| post.ledger.contains_key(c2) implies (
            #[trigger] post.ledger.spec_get(c2)).unwrap().wf() by {
                assert(old(self).ledger.contains_key(c2));
            }
        }
        Ok(())
    }

    /// Apply every slash still pending for `offence_era` once its dispute
    /// window has elapsed: slash the validator's own stake and each affected
    /// nominator's, and share the recorded payout equally among the
    /// reporters. The final state is exactly the fold of those applications,
    /// in list order, over the state with the era's pending list removed.
    pub fn apply_pending_slashes(&mut self, offence_era: u32)
        requires
            old(self).wf(),
        ensures
            final(self).wf(),
            !final(self).unapplied_slashes.contains_key(offence_era as u64),
            forall|e: u64|
                e != offence_era as u64 ==> #[trigger] final(self).unapplied_slashes.spec_get(e)
                    == old(self).unapplied_slashes.spec_get(e),
            exists|start: Staking|
                #[trigger] pending_applied_from(*old(self), start, *final(self), offence_era),
            *final(self) == (Staking {
                ledger: final(self).ledger,
                validators: final(self).validators,
                nominators: final(self).nominators,
                free_balance: final(self).free_balance,
                unapplied_slashes: final(self).unapplied_slashes,
                ..*old(self)
            }),
    {
        let lst = match self.unapplied_slashes.remove(offence_era as u64) {
            Some(v) => v,
            None => {
                proof {
                    let start = *self;
                    assert(slashes_applied(start, *self, Seq::<UnappliedSlash>::empty(), 0));
                    assert(pending_applied_from(*old(self), start, *self, offence_era));
                }
                return ;
            },
        };
        let ghost start = *self;
        let ghost after_rm = self.unapplied_slashes;
        let mut reward_payout: u64 = 0;
        let mut slashed_imbalance: u64 = 0;
        let n = lst.len();
        let mut i: usize = 0;
        proof {
            assert(lst@.subrange(0, 0) =~= Seq::<UnappliedSlash>::empty());
        }
        while i < n
            invariant
                n == lst@.len(),
                i <= n,
                self.wf(),
                self.unapplied_slashes == after_rm,
                !self.unapplied_slashes.contains_key(offence_era as u64),
                forall|e: u64|
                    e != offence_era as u64 ==> #[trigger] self.unapplied_slashes.spec_get(e)
                        == old(self).unapplied_slashes.spec_get(e),
                start == (Staking { unapplied_slashes: after_rm, ..*old(self) }),
                slashes_applied(start, *self, lst@.subrange(0, i as int), 0),
                *self == (Staking {
                    ledger: self.ledger,
                    validators: self.validators,
                    nominators: self.nominators,
                    free_balance: self.free_balance,
                    unapplied_slashes: self.unapplied_slashes,
                    ..*old(self)
                }),
            decreases n - i,
        {
            let ghost c0 = *self;
            let own_amount = lst[i].own;
            let own_target = lst[i].validator;
            self.do_slash(own_target, own_amount, &mut reward_payout, &mut slashed_imbalance);
            let ghost mid1 = *self;
            let m = lst[i].others.len();
            let mut j: usize = 0;
            proof {
                assert(lst@[i as int].others@.subrange(0, 0) =~= Seq::<(u64, u64)>::empty());
            }
            while j < m
                invariant
                    n == lst@.len(),
                    i < n,
                    m == lst@[i as int].others@.len(),
                    j <= m,
                    self.wf(),
                    self.unapplied_slashes == after_rm,
                    !self.unapplied_slashes.contains_key(offence_era as u64),
                    forall|e: u64|
                        e != offence_era as u64 ==> #[trigger] self.unapplied_slashes.spec_get(
                            e,
                        ) == old(self).unapplied_slashes.spec_get(e),
                    others_slashed(mid1, *self, lst@[i as int].others@.subrange(0, j as int), 0),
                    *self == (Staking {
                        ledger: self.ledger,
                        validators: self.validators,
                        nominators: self.nominators,
                        free_balance: self.free_balance,
                        unapplied_slashes: self.unapplied_slashes,
                        ..*old(self)
                    }),
                decreases m - j,
            {
                let ghost prev = *self;
                let who = lst[i].others[j].0;
                let amt = lst[i].others[j].1;
                self.do_slash(who, amt, &mut reward_payout, &mut slashed_imbalance);
                proof {
                    let os = lst@[i as int].others@;
                    lemma_others_slashed_push(
                        mid1,
                        prev,
                        *self,
                        os.subrange(0, j as int),
                        os[j as int],
                        0,
                    );
                    assert(os.subrange(0, j as int).push(os[j as int]) =~= os.subrange(
                        0,
                        j as int + 1,
                    ));
                }
                j += 1;
            }
            let ghost mid2 = *self;
            proof {
                assert(lst@[i as int].others@.subrange(0, m as int) =~= lst@[i as int].others@);
                assert(others_slashed(mid1, mid2, lst@[i as int].others@, 0));
            }
            let k = lst[i].reporters.len();
            let ghost per_spec: u64 = if lst@[i as int].reporters@.len() == 0 {
                0u64
            } else {
                (lst@[i as int].payout as int / lst@[i as int].reporters@.len() as int) as u64
            };
            if k > 0 {
                let per = lst[i].payout / (k as u64);
                proof {
                    assert(per == per_spec);
                    assert(lst@[i as int].reporters@.subrange(0, 0) =~= Seq::<u64>::empty());
                }
                let mut jj: usize = 0;
                while jj < k
                    invariant
                        n == lst@.len(),
                        i < n,
                        k == lst@[i as int].reporters@.len(),
                        jj <= k,
                        self.wf(),
                        per == per_spec,
                        self.unapplied_slashes == after_rm,
                        !self.unapplied_slashes.contains_key(offence_era as u64),
                        forall|e: u64|
                            e != offence_era as u64 ==> #[trigger] self.unapplied_slashes.spec_get(
                                e,
                            ) == old(self).unapplied_slashes.spec_get(e),
                        reporters_paid(
                            mid2,
                            *self,
                            lst@[i as int].reporters@.subrange(0, jj as int),
                            0,
                            per,
                        ),
                        *self == (Staking {
                            ledger: self.ledger,
                            validators: self.validators,
                            nominators: self.nominators,
                            free_balance: self.free_balance,
                            unapplied_slashes: self.unapplied_slashes,
                            ..*old(self)
                        }),
                    decreases k - jj,
                {
                    let ghost prev = *self;
                    let who = lst[i].reporters[jj];
                    self.deposit(who, per);
                    proof {
                        let rs = lst@[i as int].reporters@;
                        lemma_reporters_paid_push(
                            mid2,
                            prev,
                            *self,
                            rs.subrange(0, jj as int),
                            rs[jj as int],
                            0,
                            per,
                        );
                        assert(rs.subrange(0, jj as int).push(rs[jj as int]) =~= rs.subrange(
                            0,
                            jj as int + 1,
                        ));
                    }
                    jj += 1;
                }
                proof {
                    assert(lst@[i as int].reporters@.subrange(0, k as int) =~= lst@[
                        i as int].reporters@);
                }
            } else {
                proof {
                    assert(reporters_paid(mid2, *self, lst@[i as int].reporters@, 0, per_spec));
                }
            }
            proof {
                assert(reporters_paid(mid2, *self, lst@[i as int].reporters@, 0, per_spec));
                assert(one_slash_applied(c0, *self, lst@[i as int]));
                lemma_slashes_applied_push(
                    start,
                    c0,
                    *self,
                    lst@.subrange(0, i as int),
                    lst@[i as int],
                    0,
                );
                assert(lst@.subrange(0, i as int).push(lst@[i as int]) =~= lst@.subrange(
                    0,
                    i as int + 1,
                ));
            }
            i += 1;
        }
        proof {
            assert(lst@.subrange(0, n as int) =~= lst@);
            assert(pending_applied_from(*old(self), start, *self, offence_era));
        }
    }
}

/// Whether the vector holds `x`.
fn contains_index(v: &Vec<u32>, x: u32) -> (r: bool)
    ensures
        r == v@.contains(x),
{
    let n = v.len();
    let mut i: usize = 0;
    while i < n
        invariant
            n == v@.len(),
            i <= n,
            forall|j: int| 0 <= j < i ==> v@[j] != x,
        decreases n - i,
    {
        if v[i] == x {
            return true;
        }
        i += 1;
    }
    false
}

/// Whether the indices strictly increase.
fn is_sorted_unique(v: &Vec<u32>) -> (r: bool)
    ensures
        r == sorted_unique(v@),
{
    let n = v.len();
    if n == 0 {
        return true;
    }
    let mut i: usize = 1;
    while i < n
        invariant
            1 <= i <= n,
            n == v@.len(),
            forall|p: int, q: int| 0 <= p < q < i ==> v@[p] < v@[q],
        decreases n - i,
    {
        if v[i - 1] >= v[i] {
            return false;
        }
        proof {
            assert forall|p: int, q: int| 0 <= p < q < i + 1 implies v@[p] < v@[q] by {
                if q == i as int && p < i - 1 {
                    assert(v@[p] < v@[i - 1]);
                }
            }
        }
        i += 1;
    }
    true
}

/// Value of a prefix of the exposure contributions, named for loop bounds.
pub open spec fn sum_exposure_prefix_value(
    s: Seq<crate::types::IndividualExposure>,
    i: int,
) -> int {
    crate::types::sum_exposure(s.subrange(0, i))
}

} // verus!
