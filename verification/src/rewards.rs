use vstd::prelude::*;
use crate::state::Staking;
use crate::store::KvMap;
use crate::ledger_ops::{lemma_wf_ledger_update, min64, min_u64};
use crate::types::{
    lemma_sum_exposure_bounds_each, lemma_sum_exposure_nonneg, lemma_sum_points_bounds_each,
    lemma_sum_points_nonneg, lemma_sum_points_push, mul_ratio_u64, sum_points, ClaimRecord,
    EraSnapshot, Error, Exposure, Perbill, RewardDestination, UnlockChunk, ValidatorPrefs,
};

verus! {

/// The account a payout for `stash` is credited to: the controller when the
/// recorded destination says so, the stash itself otherwise.
pub open spec fn payout_account(s: Staking, stash: u64) -> u64 {
    if s.payee.spec_get(stash) == Some(RewardDestination::Controller) && s.bonded.contains_key(
        stash,
    ) {
        s.bonded.spec_get(stash).unwrap()
    } else {
        stash
    }
}

/// The share of `leftover` owed to a contribution of `stake` out of a total
/// exposure of `total`; everything when the exposure is empty.
pub open spec fn stake_share(leftover: u64, stake: u64, total: u64) -> int {
    if total == 0 {
        0
    } else {
        (leftover as int) * (stake as int) / (total as int)
    }
}

/// The exact effect of paying `amount` toward `stash`'s recorded reward
/// destination: the destination account's free balance grows by `amount`
/// (saturating), a `Staked` destination also bonds the amount on top of the
/// active stake as far as the ledger can carry it, and nothing else moves.
pub open spec fn paid_out(pre: Staking, post: Staking, stash: u64, amount: u64) -> bool {
    let who = payout_account(pre, stash);
    &&& post.balance_of(who) as int == if pre.balance_of(who) as int + amount as int
        <= u64::MAX as int {
        pre.balance_of(who) as int + amount as int
    } else {
        u64::MAX as int
    }
    &&& forall|w: u64| w != who ==> #[trigger] post.balance_of(w) == pre.balance_of(w)
    &&& ((pre.payee.spec_get(stash) == Some(RewardDestination::Staked) && pre.bonded.contains_key(
        stash,
    )) ==> ({
        let c = pre.bonded.spec_get(stash).unwrap();
        let l = pre.ledger.spec_get(c).unwrap();
        let add = min64(amount, (u64::MAX - l.total) as u64);
        let nl = post.ledger.spec_get(c).unwrap();
        &&& nl.active == l.active + add
        &&& nl.total == l.total + add
        &&& nl.stash == l.stash
        &&& nl.unlocking@ == l.unlocking@
        &&& forall|k: u64| k != c ==> #[trigger] post.ledger.spec_get(k) == pre.ledger.spec_get(k)
    }))
    &&& (!(pre.payee.spec_get(stash) == Some(RewardDestination::Staked)
        && pre.bonded.contains_key(stash)) ==> post.ledger == pre.ledger)
    &&& forall|k: u64| #[trigger] post.ledger.contains_key(k) <==> pre.ledger.contains_key(k)
    &&& forall|k: u64|
        pre.ledger.contains_key(k) ==> (#[trigger] post.ledger.spec_get(k)).unwrap().stash
            == pre.ledger.spec_get(k).unwrap().stash
    &&& post == (Staking { free_balance: post.free_balance, ledger: post.ledger, ..pre })
}

/// A list of payouts made in order, from position `i`.
pub open spec fn payouts_made(pre: Staking, post: Staking, parts: Seq<(u64, u64)>, i: int) -> bool
    decreases parts.len() - i,
{
    if i < 0 || i >= parts.len() {
        post == pre
    } else {
        exists|mid: Staking|
            #[trigger] paid_out(pre, mid, parts[i].0, parts[i].1) && payouts_made(
                mid,
                post,
                parts,
                i + 1,
            )
    }
}

/// Appending one payout extends the fold.
proof fn lemma_payouts_made_push(
    a: Staking,
    b: Staking,
    c: Staking,
    s: Seq<(u64, u64)>,
    x: (u64, u64),
    i: int,
)
    requires
        0 <= i <= s.len(),
        payouts_made(a, b, s, i),
        paid_out(b, c, x.0, x.1),
    ensures
        payouts_made(a, c, s.push(x), i),
    decreases s.len() - i,
{
    if i >= s.len() {
        assert(b == a);
        assert(s.push(x)[i] == x);
        assert(payouts_made(c, c, s.push(x), i + 1));
    } else {
        let mid = choose|mid: Staking|
            #[trigger] paid_out(a, mid, s[i].0, s[i].1) && payouts_made(mid, b, s, i + 1);
        lemma_payouts_made_push(mid, b, c, s, x, i + 1);
        assert(s.push(x)[i] == s[i]);
    }
}

/// `post` differs from `pre` at most in the claims of era `era`'s snapshot;
/// every other snapshot field and every other era are kept.
pub open spec fn claims_only_update(pre: Staking, post: Staking, era: u32) -> bool {
    let os = pre.eras.spec_get(era as u64).unwrap();
    let ns = post.eras.spec_get(era as u64).unwrap();
    &&& pre.eras.contains_key(era as u64)
    &&& post.eras.contains_key(era as u64)
    &&& forall|e: u64|
        e != era as u64 ==> #[trigger] post.eras.spec_get(e) == pre.eras.spec_get(e)
    &&& forall|e: u64| #[trigger] post.eras.contains_key(e) <==> pre.eras.contains_key(e)
    &&& ns.elected == os.elected
    &&& ns.stakers == os.stakers
    &&& ns.stakers_clipped == os.stakers_clipped
    &&& ns.validator_prefs == os.validator_prefs
    &&& ns.reward_points == os.reward_points
    &&& ns.validator_reward == os.validator_reward
    &&& ns.total_stake == os.total_stake
    &&& ns.start_session_index == os.start_session_index
    &&& post == (Staking { eras: post.eras, ..pre })
}

/// `mid` is `pre` after making the listed payouts, and `post` is `mid` with
/// the era's claims updated and nothing else.
pub open spec fn paid_then_claimed(
    pre: Staking,
    mid: Staking,
    post: Staking,
    parts: Seq<(u64, u64)>,
    era: u32,
) -> bool {
    &&& payouts_made(pre, mid, parts, 0)
    &&& claims_only_update(mid, post, era)
}

/// The payout pairs of a nominator's claim: every share goes to its stash.
pub open spec fn self_pairs(stash: u64, parts: Seq<(u64, u64)>) -> Seq<(u64, u64)> {
    Seq::new(parts.len(), |i: int| (stash, parts[i].1))
}

impl Staking {
    /// Pay `amount` toward `stash`'s recorded reward destination: credited to
    /// the destination account's free balance, and bonded on top of the
    /// active stake (as far as the ledger can carry it) when the destination
    /// is `Staked`.
    pub fn make_payout(&mut self, stash: u64, amount: u64)
        requires
            old(self).wf(),
        ensures
            final(self).wf(),
            paid_out(*old(self), *final(self), stash, amount),
            ({
                let who = payout_account(*old(self), stash);
                &&& final(self).balance_of(who) as int == if old(self).balance_of(who) as int
                    + amount as int <= u64::MAX as int {
                    old(self).balance_of(who) as int + amount as int
                } else {
                    u64::MAX as int
                }
                &&& forall|w: u64|
                    w != who ==> #[trigger] final(self).balance_of(w) == old(self).balance_of(w)
            }),
            (old(self).payee.spec_get(stash) == Some(RewardDestination::Staked) && old(
                self,
            ).bonded.contains_key(stash)) ==> ({
                let c = old(self).bonded.spec_get(stash).unwrap();
                let l = old(self).ledger.spec_get(c).unwrap();
                let add = min64(amount, (u64::MAX - l.total) as u64);
                let nl = final(self).ledger.spec_get(c).unwrap();
                &&& nl.active == l.active + add
                &&& nl.total == l.total + add
                &&& nl.stash == l.stash
                &&& nl.unlocking@ == l.unlocking@
                &&& forall|k: u64|
                    k != c ==> #[trigger] final(self).ledger.spec_get(k) == old(
                        self,
                    ).ledger.spec_get(k)
            }),
            !(old(self).payee.spec_get(stash) == Some(RewardDestination::Staked) && old(
                self,
            ).bonded.contains_key(stash)) ==> final(self).ledger == old(self).ledger,
            *final(self) == (Staking {
                free_balance: final(self).free_balance,
                ledger: final(self).ledger,
                ..*old(self)
            }),
    {
        let dest = match self.payee.get(stash) {
            Some(d) => *d,
            None => RewardDestination::Stash,
        };
        let target = match dest {
            RewardDestination::Controller => {
                match self.bonded.get(stash) {
                    Some(c) => *c,
                    None => stash,
                }
            },
            _ => stash,
        };
        self.deposit(target, amount);
        let ghost post_dep = *self;
        if matches!(dest, RewardDestination::Staked) {
            let controller = match self.bonded.get(stash) {
                Some(c) => Some(*c),
                None => None,
            };
            match controller {
                Some(c) => {
                    let ghost mid = *self;
                    let mut l = self.ledger.remove(c).unwrap();
                    let ghost l0 = l;
                    let add = min_u64(amount, u64::MAX - l.total);
                    proof {
                        crate::types::lemma_sum_unlock_nonneg(l.unlocking@);
                    }
                    l.active = l.active + add;
                    l.total = l.total + add;
                    self.ledger.insert(c, l);
                    proof {
                        lemma_wf_ledger_update(mid, *self, c, l);
                        assert forall|w: u64|
                            w != target implies #[trigger] self.balance_of(w) == old(
                            self,
                        ).balance_of(w) by {
                            assert(post_dep.balance_of(w) == old(self).balance_of(w));
                        }
                        assert(self.balance_of(target) == post_dep.balance_of(target));
                    }
                },
                None => {},
            }
        }
    }

    /// Root- or test-harness-facing: record the authorship points of an era.
    /// The first entry for a validator wins; a point total beyond the 32-bit
    /// range is capped at it.
    pub fn set_era_reward_points(&mut self, era: u32, individual: Vec<(u64, u32)>) -> (r: Result<
        (),
        Error,
    >)
        requires
            old(self).wf(),
        ensures
            final(self).wf(),
            r is Err ==> *final(self) == *old(self),
            r == if old(self).eras.contains_key(era as u64) {
                Ok::<(), Error>(())
            } else {
                Err::<(), Error>(Error::InvalidEraToReward)
            },
            r is Ok ==> ({
                let snap = final(self).eras.spec_get(era as u64).unwrap();
                let pre = old(self).eras.spec_get(era as u64).unwrap();
                &&& final(self).eras.contains_key(era as u64)
                &&& snap == (EraSnapshot { reward_points: snap.reward_points, ..pre })
                &&& ((forall|i: int, j: int|
                    0 <= i < j < individual@.len() ==> (#[trigger] individual@[i]).0 != (
                    #[trigger] individual@[j]).0) && sum_points(individual@) <= u32::MAX
                    ==> ({
                    &&& snap.reward_points.total as int == sum_points(individual@)
                    &&& forall|i: int|
                        0 <= i < individual@.len()
                            ==> snap.reward_points.individual.spec_get(
                            (#[trigger] individual@[i]).0,
                        ) == Some(individual@[i].1)
                }))
                &&& forall|e: u64|
                    e != era as u64 ==> #[trigger] final(self).eras.spec_get(e) == old(
                        self,
                    ).eras.spec_get(e)
                &&& *final(self) == (Staking { eras: final(self).eras, ..*old(self) })
            }),
    {
        if !self.eras.contains(era as u64) {
            return Err(Error::InvalidEraToReward);
        }
        let mut points: KvMap<u32> = KvMap::new();
        let mut total: u32 = 0;
        let n = individual.len();
        let mut i: usize = 0;
        while i < n
            invariant
                n == individual@.len(),
                i <= n,
                points.wf(),
                total as int == sum_points(points.entries()),
                forall|k: u64|
                    #[trigger] points.contains_key(k) ==> exists|j: int|
                        0 <= j < i && (#[trigger] individual@[j]).0 == k,
                forall|j: int|
                    0 <= j < i ==> ((forall|j2: int|
                        0 <= j2 < j ==> (#[trigger] individual@[j2]).0 != (
                        #[trigger] individual@[j]).0) ==> points.contains_key(
                        individual@[j].0,
                    )),
                ((forall|p: int, q: int|
                    0 <= p < q < individual@.len() ==> (#[trigger] individual@[p]).0 != (
                    #[trigger] individual@[q]).0) && sum_points(individual@) <= u32::MAX) ==> ({
                    &&& total as int == sum_points(individual@.subrange(0, i as int))
                    &&& forall|j: int|
                        0 <= j < i ==> points.spec_get((#[trigger] individual@[j]).0) == Some(
                            individual@[j].1,
                        )
                }),
            decreases n - i,
        {
            let (v, p) = individual[i];
            if !points.contains(v) {
                let room = u32::MAX - total;
                let add = if p <= room {
                    p
                } else {
                    room
                };
                let ghost entries0 = points.entries();
                points.insert(v, add);
                proof {
                    lemma_sum_points_push(entries0, (v, add));
                }
                total = total + add;
                proof {
                    if (forall|p2: int, q2: int|
                        0 <= p2 < q2 < individual@.len() ==> (#[trigger] individual@[p2]).0 != (
                        #[trigger] individual@[q2]).0) && sum_points(individual@) <= u32::MAX {
                        assert(individual@.subrange(0, i as int + 1).drop_last()
                            =~= individual@.subrange(0, i as int));
                        assert(individual@.subrange(0, i as int + 1).last()
                            == individual@[i as int]);
                        lemma_sum_points_prefix(individual@, i as int + 1);
                        assert(p <= room);
                    }
                }
            } else {
                proof {
                    if forall|p2: int, q2: int|
                        0 <= p2 < q2 < individual@.len() ==> (#[trigger] individual@[p2]).0 != (
                        #[trigger] individual@[q2]).0 {
                        let j = choose|j: int|
                            0 <= j < i && (#[trigger] individual@[j]).0 == v;
                        assert(individual@[j].0 != individual@[i as int].0);
                        assert(false);
                    }
                }
            }
            i += 1;
        }
        let mut snap = self.eras.remove(era as u64).unwrap();
        snap.reward_points = crate::types::EraRewardPoints { total, individual: points };
        self.eras.insert(era as u64, snap);
        proof {
            if (forall|p2: int, q2: int|
                0 <= p2 < q2 < individual@.len() ==> (#[trigger] individual@[p2]).0 != (
                #[trigger] individual@[q2]).0) && sum_points(individual@) <= u32::MAX {
                assert(individual@.subrange(0, n as int) =~= individual@);
            }
            crate::election::lemma_wf_after_snapshot(
                *old(self),
                *self,
                era as u64,
                snap,
            );
        }
        Ok(())
    }

    /// Root- or test-harness-facing: record the total payout available for
    /// an era's rewards.
    pub fn set_era_validator_reward(&mut self, era: u32, amount: u64) -> (r: Result<(), Error>)
        requires
            old(self).wf(),
        ensures
            final(self).wf(),
            r is Err ==> *final(self) == *old(self),
            r == if old(self).eras.contains_key(era as u64) {
                Ok::<(), Error>(())
            } else {
                Err::<(), Error>(Error::InvalidEraToReward)
            },
            r is Ok ==> ({
                let snap = final(self).eras.spec_get(era as u64).unwrap();
                let pre = old(self).eras.spec_get(era as u64).unwrap();
                &&& final(self).eras.contains_key(era as u64)
                &&& snap == (EraSnapshot { validator_reward: amount, ..pre })
                &&& forall|e: u64|
                    e != era as u64 ==> #[trigger] final(self).eras.spec_get(e) == old(
                        self,
                    ).eras.spec_get(e)
                &&& *final(self) == (Staking { eras: final(self).eras, ..*old(self) })
            }),
    {
        if !self.eras.contains(era as u64) {
            return Err(Error::InvalidEraToReward);
        }
        let mut snap = self.eras.remove(era as u64).unwrap();
        snap.validator_reward = amount;
        self.eras.insert(era as u64, snap);
        proof {
            crate::election::lemma_wf_after_snapshot(*old(self), *self, era as u64, snap);
        }
        Ok(())
    }
}

/// The points an era's record credits to a validator, zero when absent.
pub open spec fn points_of(snap: EraSnapshot, stash: u64) -> u32 {
    if snap.reward_points.individual.contains_key(stash) {
        snap.reward_points.individual.spec_get(stash).unwrap()
    } else {
        0
    }
}

/// The commission recorded for a validator in a snapshot, zero when absent.
pub open spec fn commission_of(snap: EraSnapshot, stash: u64) -> Perbill {
    if snap.validator_prefs.contains_key(stash) {
        snap.validator_prefs.spec_get(stash).unwrap().commission
    } else {
        Perbill { parts: 0 }
    }
}

/// The slice of the era payout owed to a validator for its points.
pub open spec fn validator_share(snap: EraSnapshot, stash: u64) -> int {
    (snap.validator_reward as int) * (points_of(snap, stash) as int) / (
    snap.reward_points.total as int)
}

/// Whether a validator's own payout for a snapshot was already taken.
pub open spec fn validator_claimed(snap: EraSnapshot, stash: u64) -> bool {
    snap.claims.contains_key(stash) && snap.claims.spec_get(stash).unwrap().validator_claimed
}

impl Staking {
    /// Pay out a validator's share of an era's reward: the commission plus
    /// its own-stake slice to the validator, and a stake-proportional slice
    /// to every nominator in the clipped exposure, each routed through its
    /// recorded reward destination. Returns the (stash, amount) payouts.
    #[verifier::rlimit(100)]
    pub fn payout_validator(&mut self, controller: u64, era: u32) -> (r: Result<
        Vec<(u64, u64)>,
        Error,
    >)
        requires
            old(self).wf(),
        ensures
            final(self).wf(),
            r is Err ==> *final(self) == *old(self),
            ({
                let snap = old(self).eras.spec_get(era as u64).unwrap();
                let stash = old(self).ledger.spec_get(controller).unwrap().stash;
                &&& (r is Err <==> (!old(self).ledger.contains_key(controller) || !old(
                    self,
                ).eras.contains_key(era as u64) || snap.reward_points.total == 0
                    || !snap.stakers_clipped.contains_key(stash) || validator_claimed(
                    snap,
                    stash,
                )))
                &&& (!old(self).ledger.contains_key(controller) ==> r == Err::<
                    Vec<(u64, u64)>,
                    Error,
                >(Error::NotController))
                &&& (old(self).ledger.contains_key(controller) && (!old(self).eras.contains_key(
                    era as u64,
                ) || snap.reward_points.total == 0 || !snap.stakers_clipped.contains_key(stash))
                    ==> r == Err::<Vec<(u64, u64)>, Error>(Error::InvalidEraToReward))
                &&& (old(self).ledger.contains_key(controller) && old(self).eras.contains_key(
                    era as u64,
                ) && snap.reward_points.total != 0 && snap.stakers_clipped.contains_key(stash)
                    && validator_claimed(snap, stash) ==> r == Err::<Vec<(u64, u64)>, Error>(
                    Error::AlreadyClaimed,
                ))
            }),
            r is Ok ==> ({
                let snap = old(self).eras.spec_get(era as u64).unwrap();
                let stash = old(self).ledger.spec_get(controller).unwrap().stash;
                let share = validator_share(snap, stash);
                let cut = commission_of(snap, stash).spec_mul(share as u64);
                let leftover = (share - cut) as u64;
                let exp = snap.stakers_clipped.spec_get(stash).unwrap();
                let parts = r.unwrap()@;
                &&& parts.len() == 1 + exp.others@.len()
                &&& parts[0].0 == stash
                &&& (exp.total == 0 ==> parts[0].1 as int == share)
                &&& (exp.total != 0 ==> parts[0].1 as int == cut + stake_share(
                    leftover,
                    exp.own,
                    exp.total,
                ))
                &&& forall|i: int|
                    0 <= i < exp.others@.len() ==> #[trigger] parts[i + 1] == ((
                    exp.others@[i].who, stake_share(leftover, exp.others@[i].value, exp.total) as u64))
                &&& final(self).eras.contains_key(era as u64)
                &&& validator_claimed(final(self).eras.spec_get(era as u64).unwrap(), stash)
                &&& forall|e: u64|
                    e != era as u64 ==> #[trigger] final(self).eras.spec_get(e) == old(
                        self,
                    ).eras.spec_get(e)
                &&& forall|k: u64|
                    #[trigger] final(self).ledger.contains_key(k) <==> old(
                        self,
                    ).ledger.contains_key(k)
                &&& final(self).ledger.contains_key(controller)
                &&& final(self).ledger.spec_get(controller).unwrap().stash == stash
                &&& ({
                    let ns = final(self).eras.spec_get(era as u64).unwrap();
                    &&& ns.stakers == snap.stakers
                    &&& ns.stakers_clipped == snap.stakers_clipped
                    &&& ns.validator_prefs == snap.validator_prefs
                    &&& ns.reward_points == snap.reward_points
                    &&& ns.validator_reward == snap.validator_reward
                    &&& ns.total_stake == snap.total_stake
                    &&& ns.start_session_index == snap.start_session_index
                    &&& ns.elected == snap.elected
                    &&& (forall|k: u64|
                        k != stash ==> #[trigger] ns.claims.spec_get(k) == snap.claims.spec_get(
                            k,
                        ))
                    &&& ns.claims.spec_get(stash).unwrap().nominator_claims@ == (
                    if snap.claims.contains_key(stash) {
                        snap.claims.spec_get(stash).unwrap().nominator_claims@
                    } else {
                        Seq::<u64>::empty()
                    })
                })
                &&& *final(self) == (Staking {
                    eras: final(self).eras,
                    free_balance: final(self).free_balance,
                    ledger: final(self).ledger,
                    ..*old(self)
                })
            }),
            r is Ok ==> paid_then_claimed(
                *old(self),
                (Staking { eras: old(self).eras, ..*final(self) }),
                *final(self),
                r.unwrap()@,
                era,
            ),
    {
        let stash = match self.ledger.get(controller) {
            Some(l) => l.stash,
            None => {
                return Err(Error::NotController);
            },
        };
        let parts: Vec<(u64, u64)> = {
            let snap = match self.eras.get(era as u64) {
                Some(s) => s,
                None => {
                    return Err(Error::InvalidEraToReward);
                },
            };
            if snap.reward_points.total == 0 {
                return Err(Error::InvalidEraToReward);
            }
            let exp = match snap.stakers_clipped.get(stash) {
                Some(e) => e,
                None => {
                    return Err(Error::InvalidEraToReward);
                },
            };
            let already = match snap.claims.get(stash) {
                Some(c) => c.validator_claimed,
                None => false,
            };
            if already {
                return Err(Error::AlreadyClaimed);
            }
            let pts = match snap.reward_points.individual.get(stash) {
                Some(p) => *p,
                None => 0,
            };
            proof {
                if snap.reward_points.individual.contains_key(stash) {
                    let idx = snap.reward_points.individual.index_of(stash);
                    lemma_sum_points_bounds_each(snap.reward_points.individual.entries(), idx);
                } else {
                    lemma_sum_points_nonneg(snap.reward_points.individual.entries());
                }
            }
            let share = mul_ratio_u64(
                snap.validator_reward,
                pts as u64,
                snap.reward_points.total as u64,
            );
            let commission = match snap.validator_prefs.get(stash) {
                Some(p) => p.commission,
                None => Perbill { parts: 0 },
            };
            let cut = commission.mul_floor(share);
            let leftover = share - cut;
            let mut parts: Vec<(u64, u64)> = Vec::new();
            proof {
                lemma_sum_exposure_nonneg(exp.others@);
            }
            if exp.total == 0 {
                parts.push((stash, share));
            } else {
                let own_part = mul_ratio_u64(leftover, exp.own, exp.total);
                parts.push((stash, cut + own_part));
            }
            let n = exp.others.len();
            let mut i: usize = 0;
            while i < n
                invariant
                    n == exp.others@.len(),
                    i <= n,
                    exp.wf(),
                    parts@.len() == 1 + i,
                    parts@[0].0 == stash,
                    exp.total == 0 ==> parts@[0].1 == share,
                    exp.total != 0 ==> parts@[0].1 as int == cut as int + stake_share(
                        leftover,
                        exp.own,
                        exp.total,
                    ),
                    forall|j: int|
                        0 <= j < i ==> #[trigger] parts@[j + 1] == ((
                        exp.others@[j].who, stake_share(
                            leftover,
                            exp.others@[j].value,
                            exp.total,
                        ) as u64)),
                decreases n - i,
            {
                let e = exp.others[i];
                let part: u64 = if exp.total == 0 {
                    0
                } else {
                    proof {
                        lemma_sum_exposure_bounds_each(exp.others@, i as int);
                    }
                    mul_ratio_u64(leftover, e.value, exp.total)
                };
                proof {
                    assert(stake_share(leftover, e.value, exp.total) == part as int);
                }
                parts.push((e.who, part));
                i += 1;
            }
            parts
        };
        // pay every recipient, then record the claim
        let ghost pre_pay = *self;
        proof {
            assert(parts@.subrange(0, 0) =~= Seq::<(u64, u64)>::empty());
        }
        let np = parts.len();
        let mut k: usize = 0;
        while k < np
            invariant
                np == parts@.len(),
                k <= np,
                self.wf(),
                pre_pay == *old(self),
                self.eras == old(self).eras,
                payouts_made(*old(self), *self, parts@.subrange(0, k as int), 0),
                forall|k2: u64|
                    #[trigger] self.ledger.contains_key(k2) <==> old(self).ledger.contains_key(
                        k2,
                    ),
                forall|k2: u64|
                    old(self).ledger.contains_key(k2) ==> (#[trigger] self.ledger.spec_get(
                        k2,
                    )).unwrap().stash == old(self).ledger.spec_get(k2).unwrap().stash,
                *self == (Staking {
                    free_balance: self.free_balance,
                    ledger: self.ledger,
                    ..pre_pay
                }),
            decreases np - k,
        {
            let ghost prev = *self;
            let (who, amount) = parts[k];
            self.make_payout(who, amount);
            proof {
                lemma_payouts_made_push(
                    *old(self),
                    prev,
                    *self,
                    parts@.subrange(0, k as int),
                    parts@[k as int],
                    0,
                );
                assert(parts@.subrange(0, k as int).push(parts@[k as int]) =~= parts@.subrange(
                    0,
                    k as int + 1,
                ));
            }
            k += 1;
        }
        let ghost mid_pay = *self;
        proof {
            assert(parts@.subrange(0, np as int) =~= parts@);
            assert(payouts_made(*old(self), mid_pay, parts@, 0));
        }
        let ghost before_claims = *self;
        let mut snap = self.eras.remove(era as u64).unwrap();
        let mut rec = match snap.claims.remove(stash) {
            Some(c) => c,
            None => ClaimRecord { validator_claimed: false, nominator_claims: Vec::new() },
        };
        rec.validator_claimed = true;
        snap.claims.insert(stash, rec);
        self.eras.insert(era as u64, snap);
        proof {
            crate::election::lemma_wf_after_snapshot(before_claims, *self, era as u64, snap);
            assert(claims_only_update(mid_pay, *self, era));
            assert(mid_pay == (Staking { eras: old(self).eras, ..*self }));
            assert(paid_then_claimed(*old(self), mid_pay, *self, parts@, era));
        }
        Ok(parts)
    }
}

/// The failure, if any, a nominator's claim against one listed validator
/// meets: the validator must have a clipped exposure in the era, the given
/// position in it must name the caller, and the share must be unclaimed.
pub open spec fn nominator_entry_error(snap: EraSnapshot, stash: u64, pair: (u64, u32)) -> Option<
    Error,
> {
    if !snap.stakers_clipped.contains_key(pair.0) {
        Some(Error::InvalidEraToReward)
    } else if !(pair.1 < snap.stakers_clipped.spec_get(pair.0).unwrap().others@.len()
        && snap.stakers_clipped.spec_get(pair.0).unwrap().others@[pair.1 as int].who == stash) {
        Some(Error::NotNominated)
    } else if snap.claims.contains_key(pair.0) && snap.claims.spec_get(
        pair.0,
    ).unwrap().nominator_claims@.contains(stash) {
        Some(Error::AlreadyClaimed)
    } else {
        None
    }
}

/// The first failure among the listed validators, in list order.
pub open spec fn first_entry_error(
    snap: EraSnapshot,
    stash: u64,
    list: Seq<(u64, u32)>,
    i: int,
) -> Option<Error>
    decreases list.len() - i,
{
    if i < 0 || i >= list.len() {
        None
    } else {
        match nominator_entry_error(snap, stash, list[i]) {
            Some(e) => Some(e),
            None => first_entry_error(snap, stash, list, i + 1),
        }
    }
}

impl Staking {
    /// Pay out the calling nominator's share against each listed validator
    /// for one era: the same commission-then-proportional split as the
    /// validator payout, evaluated for the caller's entry in each clipped
    /// exposure (named by its position). All entries are validated before
    /// anything is paid; the claims are then marked per validator. Returns
    /// the (validator, amount) shares paid to the caller's stash.
    pub fn payout_nominator(&mut self, controller: u64, era: u32, validators: Vec<(u64, u32)>)
        -> (r: Result<Vec<(u64, u64)>, Error>)
        requires
            old(self).wf(),
        ensures
            final(self).wf(),
            r is Err ==> *final(self) == *old(self),
            r == ({
                let snap = old(self).eras.spec_get(era as u64).unwrap();
                let stash = old(self).ledger.spec_get(controller).unwrap().stash;
                if !old(self).ledger.contains_key(controller) {
                    Err::<Vec<(u64, u64)>, Error>(Error::NotController)
                } else if !old(self).eras.contains_key(era as u64)
                    || snap.reward_points.total == 0 {
                    Err::<Vec<(u64, u64)>, Error>(Error::InvalidEraToReward)
                } else {
                    match first_entry_error(snap, stash, validators@, 0) {
                        Some(e) => Err::<Vec<(u64, u64)>, Error>(e),
                        None => r,
                    }
                }
            }),
            r is Ok ==> ({
                let snap = old(self).eras.spec_get(era as u64).unwrap();
                let stash = old(self).ledger.spec_get(controller).unwrap().stash;
                let parts = r.unwrap()@;
                &&& parts.len() == validators@.len()
                &&& forall|i: int|
                    0 <= i < validators@.len() ==> ({
                        let v = (#[trigger] validators@[i]).0;
                        let share = validator_share(snap, v);
                        let cut = commission_of(snap, v).spec_mul(share as u64);
                        let leftover = (share - cut) as u64;
                        let exp = snap.stakers_clipped.spec_get(v).unwrap();
                        parts[i] == ((v, stake_share(
                            leftover,
                            exp.others@[validators@[i].1 as int].value,
                            exp.total,
                        ) as u64))
                    })
                &&& final(self).eras.contains_key(era as u64)
                &&& forall|i: int|
                    0 <= i < validators@.len() ==> ({
                        let cl = final(self).eras.spec_get(era as u64).unwrap().claims;
                        &&& cl.contains_key((#[trigger] validators@[i]).0)
                        &&& cl.spec_get(validators@[i].0).unwrap().nominator_claims@.contains(
                            stash,
                        )
                    })
                &&& forall|e: u64|
                    e != era as u64 ==> #[trigger] final(self).eras.spec_get(e) == old(
                        self,
                    ).eras.spec_get(e)
                &&& forall|k: u64|
                    #[trigger] final(self).ledger.contains_key(k) <==> old(
                        self,
                    ).ledger.contains_key(k)
                &&& final(self).ledger.contains_key(controller)
                &&& final(self).ledger.spec_get(controller).unwrap().stash == stash
                &&& forall|k: u64|
                    (forall|i: int| 0 <= i < validators@.len() ==> (#[trigger] validators@[i]).0 != k)
                        ==> #[trigger] final(self).eras.spec_get(
                        era as u64,
                    ).unwrap().claims.spec_get(k) == snap.claims.spec_get(k)
                &&& *final(self) == (Staking {
                    eras: final(self).eras,
                    free_balance: final(self).free_balance,
                    ledger: final(self).ledger,
                    ..*old(self)
                })
            }),
            r is Ok ==> paid_then_claimed(
                *old(self),
                (Staking { eras: old(self).eras, ..*final(self) }),
                *final(self),
                self_pairs(old(self).ledger.spec_get(controller).unwrap().stash, r.unwrap()@),
                era,
            ),
    {
        let stash = match self.ledger.get(controller) {
            Some(l) => l.stash,
            None => {
                return Err(Error::NotController);
            },
        };
        let parts: Vec<(u64, u64)> = {
            let snap = match self.eras.get(era as u64) {
                Some(s) => s,
                None => {
                    return Err(Error::InvalidEraToReward);
                },
            };
            if snap.reward_points.total == 0 {
                return Err(Error::InvalidEraToReward);
            }
            let n = validators.len();
            // validate every entry before paying anything
            match validate_nominator_entries(snap, stash, &validators) {
                Some(e) => {
                    return Err(e);
                },
                None => {},
            }
            // compute each share
            let mut parts: Vec<(u64, u64)> = Vec::new();
            let mut k: usize = 0;
            while k < n
                invariant
                    n == validators@.len(),
                    k <= n,
                    snap.wf(),
                    snap.reward_points.total != 0,
                    first_entry_error(*snap, stash, validators@, 0) is None,
                    parts@.len() == k,
                    forall|i2: int|
                        0 <= i2 < k ==> ({
                            let v = (#[trigger] validators@[i2]).0;
                            let share = validator_share(*snap, v);
                            let cut = commission_of(*snap, v).spec_mul(share as u64);
                            let leftover = (share - cut) as u64;
                            let exp = snap.stakers_clipped.spec_get(v).unwrap();
                            parts@[i2] == ((v, stake_share(
                                leftover,
                                exp.others@[validators@[i2].1 as int].value,
                                exp.total,
                            ) as u64))
                        }),
                decreases n - k,
            {
                proof {
                    lemma_first_entry_error_at(*snap, stash, validators@, k as int);
                }
                let (v, idx) = validators[k];
                let exp = match snap.stakers_clipped.get(v) {
                    Some(e) => e,
                    None => {
                        proof {
                            assert(false);
                        }
                        return Err(Error::InvalidEraToReward);
                    },
                };
                let pts = match snap.reward_points.individual.get(v) {
                    Some(p) => *p,
                    None => 0,
                };
                proof {
                    if snap.reward_points.individual.contains_key(v) {
                        let pidx = snap.reward_points.individual.index_of(v);
                        lemma_sum_points_bounds_each(
                            snap.reward_points.individual.entries(),
                            pidx,
                        );
                    } else {
                        lemma_sum_points_nonneg(snap.reward_points.individual.entries());
                    }
                }
                let share = mul_ratio_u64(
                    snap.validator_reward,
                    pts as u64,
                    snap.reward_points.total as u64,
                );
                let commission = match snap.validator_prefs.get(v) {
                    Some(p) => p.commission,
                    None => Perbill { parts: 0 },
                };
                let cut = commission.mul_floor(share);
                let leftover = share - cut;
                let part: u64 = if exp.total == 0 {
                    0
                } else {
                    proof {
                        lemma_sum_exposure_bounds_each(exp.others@, idx as int);
                        lemma_sum_exposure_nonneg(exp.others@);
                    }
                    mul_ratio_u64(leftover, exp.others[idx as usize].value, exp.total)
                };
                proof {
                    assert(stake_share(
                        leftover,
                        exp.others@[idx as int].value,
                        exp.total,
                    ) == part as int);
                }
                parts.push((v, part));
                k += 1;
            }
            parts
        };
        // pay the caller, then record each claim
        let ghost pre_pay = *self;
        let ghost gpairs = self_pairs(stash, parts@);
        proof {
            assert(gpairs.subrange(0, 0) =~= Seq::<(u64, u64)>::empty());
        }
        let np = parts.len();
        let mut k2: usize = 0;
        while k2 < np
            invariant
                np == parts@.len(),
                k2 <= np,
                self.wf(),
                pre_pay == *old(self),
                gpairs == self_pairs(stash, parts@),
                self.eras == old(self).eras,
                payouts_made(*old(self), *self, gpairs.subrange(0, k2 as int), 0),
                forall|k3: u64|
                    #[trigger] self.ledger.contains_key(k3) <==> old(self).ledger.contains_key(
                        k3,
                    ),
                forall|k3: u64|
                    old(self).ledger.contains_key(k3) ==> (#[trigger] self.ledger.spec_get(
                        k3,
                    )).unwrap().stash == old(self).ledger.spec_get(k3).unwrap().stash,
                *self == (Staking {
                    free_balance: self.free_balance,
                    ledger: self.ledger,
                    ..pre_pay
                }),
            decreases np - k2,
        {
            let ghost prev = *self;
            let amount = parts[k2].1;
            self.make_payout(stash, amount);
            proof {
                assert(gpairs[k2 as int] == (stash, amount));
                lemma_payouts_made_push(
                    *old(self),
                    prev,
                    *self,
                    gpairs.subrange(0, k2 as int),
                    gpairs[k2 as int],
                    0,
                );
                assert(gpairs.subrange(0, k2 as int).push(gpairs[k2 as int]) =~= gpairs.subrange(
                    0,
                    k2 as int + 1,
                ));
            }
            k2 += 1;
        }
        let ghost mid_pay = *self;
        proof {
            assert(gpairs.subrange(0, np as int) =~= gpairs);
            assert(payouts_made(*old(self), mid_pay, gpairs, 0));
        }
        let ghost before_claims = *self;
        let mut snap = self.eras.remove(era as u64).unwrap();
        let ghost claims0 = snap.claims;
        let ghost snap0 = snap;
        let nv = validators.len();
        let mut m: usize = 0;
        while m < nv
            invariant
                nv == validators@.len(),
                m <= nv,
                snap.elected == snap0.elected,
                snap.stakers == snap0.stakers,
                snap.stakers_clipped == snap0.stakers_clipped,
                snap.validator_prefs == snap0.validator_prefs,
                snap.reward_points == snap0.reward_points,
                snap.validator_reward == snap0.validator_reward,
                snap.total_stake == snap0.total_stake,
                snap.start_session_index == snap0.start_session_index,
                snap.stakers_clipped.wf(),
                snap.validator_prefs.wf(),
                snap.reward_points.wf(),
                snap.stakers.wf(),
                snap.claims.wf(),
                forall|v: u64|
                    snap.stakers.contains_key(v) ==> (#[trigger] snap.stakers.spec_get(
                        v,
                    )).unwrap().wf(),
                forall|v: u64|
                    snap.stakers_clipped.contains_key(v) ==> (
                    #[trigger] snap.stakers_clipped.spec_get(v)).unwrap().wf(),
                forall|v: u64|
                    snap.validator_prefs.contains_key(v) ==> (
                    #[trigger] snap.validator_prefs.spec_get(v)).unwrap().commission.wf(),
                forall|i2: int|
                    0 <= i2 < m ==> ({
                        let v = (#[trigger] validators@[i2]).0;
                        &&& snap.claims.contains_key(v)
                        &&& snap.claims.spec_get(v).unwrap().nominator_claims@.contains(stash)
                    }),
                forall|k3: u64|
                    (forall|i2: int|
                        0 <= i2 < m ==> (#[trigger] validators@[i2]).0 != k3)
                        ==> #[trigger] snap.claims.spec_get(k3) == claims0.spec_get(k3),
            decreases nv - m,
        {
            let v = validators[m].0;
            let ghost pre_claims = snap.claims;
            let mut rec = match snap.claims.remove(v) {
                Some(c) => c,
                None => ClaimRecord { validator_claimed: false, nominator_claims: Vec::new() },
            };
            let ghost pre_list = rec.nominator_claims@;
            if !contains_u64_local(&rec.nominator_claims, stash) {
                rec.nominator_claims.push(stash);
            }
            snap.claims.insert(v, rec);
            proof {
                assert(rec.nominator_claims@.contains(stash)) by {
                    if !pre_list.contains(stash) {
                        assert(rec.nominator_claims@.last() == stash);
                    } else {
                        let w = choose|w: int| 0 <= w < pre_list.len() && pre_list[w] == stash;
                        assert(rec.nominator_claims@[w] == stash);
                    }
                }
                assert forall|i2: int| 0 <= i2 < m + 1 implies ({
                    let v2 = (#[trigger] validators@[i2]).0;
                    &&& snap.claims.contains_key(v2)
                    &&& snap.claims.spec_get(v2).unwrap().nominator_claims@.contains(stash)
                }) by {
                    let v2 = validators@[i2].0;
                    if i2 < m && v2 != v {
                        assert(pre_claims.contains_key(v2));
                        assert(snap.claims.spec_get(v2) == pre_claims.spec_get(v2));
                    } else if i2 < m && v2 == v {
                        assert(pre_claims.spec_get(v).unwrap().nominator_claims@.contains(
                            stash,
                        ));
                        assert(pre_list.contains(stash));
                    }
                }
                assert forall|k3: u64|
                    (forall|i2: int|
                        0 <= i2 < m + 1 ==> (#[trigger] validators@[i2]).0 != k3) implies (
                #[trigger] snap.claims.spec_get(k3) == claims0.spec_get(k3)) by {
                    assert(validators@[m as int].0 != k3);
                    assert(pre_claims.spec_get(k3) == claims0.spec_get(k3));
                }
            }
            m += 1;
        }
        self.eras.insert(era as u64, snap);
        proof {
            crate::election::lemma_wf_after_snapshot(before_claims, *self, era as u64, snap);
            assert(claims_only_update(mid_pay, *self, era));
            assert(mid_pay == (Staking { eras: old(self).eras, ..*self }));
            assert(paid_then_claimed(*old(self), mid_pay, *self, gpairs, era));
        }
        Ok(parts)
    }

    /// Root-only: reconfigure how many trailing eras stay queryable, pruning
    /// eagerly when the window shrinks.
    pub fn set_history_depth(&mut self, depth: u32)
        requires
            old(self).wf(),
        ensures
            final(self).wf(),
            final(self).history_depth == depth,
            forall|e: u64|
                #[trigger] final(self).eras.contains_key(e) <==> (old(self).eras.contains_key(e)
                    && e >= (if old(self).era_now() > depth {
                    (old(self).era_now() - depth) as u64
                } else {
                    0
                })),
            *final(self) == (Staking {
                history_depth: depth,
                eras: final(self).eras,
                ..*old(self)
            }),
    {
        self.history_depth = depth;
        let era = self.era_index();
        let cutoff: u64 = if era > depth {
            (era - depth) as u64
        } else {
            0
        };
        self.prune_eras(cutoff);
    }
}

/// Check every listed claim against the snapshot, in order, returning the
/// first failure.
fn validate_nominator_entries(snap: &EraSnapshot, stash: u64, validators: &Vec<(u64, u32)>) -> (r:
    Option<Error>)
    requires
        snap.wf(),
    ensures
        r == first_entry_error(*snap, stash, validators@, 0),
{
    let n = validators.len();
    let mut i: usize = 0;
    while i < n
        invariant
            n == validators@.len(),
            i <= n,
            snap.wf(),
            first_entry_error(*snap, stash, validators@, 0) == first_entry_error(
                *snap,
                stash,
                validators@,
                i as int,
            ),
        decreases n - i,
    {
        let (v, idx) = validators[i];
        let exp = match snap.stakers_clipped.get(v) {
            Some(e) => e,
            None => {
                return Some(Error::InvalidEraToReward);
            },
        };
        let named = (idx as usize) < exp.others.len() && exp.others[idx as usize].who == stash;
        if !named {
            return Some(Error::NotNominated);
        }
        let claimed = match snap.claims.get(v) {
            Some(c) => contains_u64_local(&c.nominator_claims, stash),
            None => false,
        };
        if claimed {
            return Some(Error::AlreadyClaimed);
        }
        i += 1;
    }
    None
}

/// Whether the claim list holds `x`.
fn contains_u64_local(v: &Vec<u64>, x: u64) -> (r: bool)
    ensures
        r == v@.contains(x),
{
    let n = v.len();
    let mut i: usize = 0;
    while i < n
        invariant
            n == v@.len(),
            i <= n,
            forall|j: int| 0 <= j < i ==> v@[j] != x,
        decreases n - i,
    {
        if v[i] == x {
            return true;
        }
        i += 1;
    }
    false
}

/// When no entry up to the end fails, the entry at `k` does not fail.
pub proof fn lemma_first_entry_error_at(
    snap: EraSnapshot,
    stash: u64,
    list: Seq<(u64, u32)>,
    k: int,
)
    requires
        0 <= k < list.len(),
        first_entry_error(snap, stash, list, 0) is None,
    ensures
        nominator_entry_error(snap, stash, list[k]) is None,
    decreases k,
{
    if k > 0 {
        lemma_first_entry_error_none_step(snap, stash, list, 0, k);
    }
}

/// `first_entry_error` being `None` from position `i` keeps every later
/// entry failure-free.
proof fn lemma_first_entry_error_none_step(
    snap: EraSnapshot,
    stash: u64,
    list: Seq<(u64, u32)>,
    i: int,
    k: int,
)
    requires
        0 <= i <= k < list.len(),
        first_entry_error(snap, stash, list, i) is None,
    ensures
        nominator_entry_error(snap, stash, list[k]) is None,
    decreases k - i,
{
    if i < k {
        lemma_first_entry_error_none_step(snap, stash, list, i + 1, k);
    }
}

/// A prefix of the recorded points never sums to more than all of them.
pub proof fn lemma_sum_points_prefix(s: Seq<(u64, u32)>, i: int)
    requires
        0 <= i <= s.len(),
    ensures
        sum_points(s.subrange(0, i)) <= sum_points(s),
    decreases s.len() - i,
{
    if i == s.len() {
        assert(s.subrange(0, i) =~= s);
    } else {
        assert(s.subrange(0, i + 1).drop_last() =~= s.subrange(0, i));
        assert(s.subrange(0, i + 1).last() == s[i]);
        lemma_sum_points_prefix(s, i + 1);
    }
}

} // verus!
