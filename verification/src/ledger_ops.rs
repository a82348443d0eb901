use vstd::prelude::*;
use crate::state::Staking;
use crate::types::{
    lemma_sum_unlock_drop_first, lemma_sum_unlock_nonneg, lemma_sum_unlock_push,
    lemma_sum_unlock_update, sum_unlock, Error,
    RewardDestination, StakingLedger, UnlockChunk,
};

verus! {

pub open spec fn min64(a: u64, b: u64) -> u64 {
    if a <= b {
        a
    } else {
        b
    }
}

pub fn min_u64(a: u64, b: u64) -> (r: u64)
    ensures
        r == min64(a, b),
{
    if a <= b {
        a
    } else {
        b
    }
}

/// The era in which a chunk unbonded now becomes withdrawable.
pub open spec fn unbond_target_era(s: Staking) -> u32 {
    if s.era_now() as int + s.bonding_duration as int <= u32::MAX as int {
        (s.era_now() + s.bonding_duration) as u32
    } else {
        u32::MAX
    }
}

/// The unlocking queue after queueing `amt` for era `target`: merged into the
/// newest chunk when it already waits for `target` (the newest chunk's era
/// never exceeds the target in any state the operations produce), appended
/// otherwise.
pub open spec fn unbond_chunks(s: Seq<UnlockChunk>, amt: u64, target: u32) -> Seq<UnlockChunk> {
    if s.len() > 0 && s.last().era >= target {
        s.update(
            s.len() - 1,
            (UnlockChunk { value: (s.last().value + amt) as u64, era: s.last().era }),
        )
    } else {
        s.push((UnlockChunk { value: amt, era: target }))
    }
}

/// The unlocking queue after moving `v` back into active stake, consuming the
/// newest chunks first; a partially-consumed chunk keeps its remainder.
pub open spec fn rebond_chunks(s: Seq<UnlockChunk>, v: u64) -> Seq<UnlockChunk>
    decreases s.len(),
{
    if s.len() == 0 || v == 0 {
        s
    } else if v >= s.last().value {
        rebond_chunks(s.drop_last(), (v - s.last().value) as u64)
    } else {
        s.update(
            s.len() - 1,
            (UnlockChunk { value: (s.last().value - v) as u64, era: s.last().era }),
        )
    }
}

/// The amount a rebond of `v` actually moves back into active stake.
pub open spec fn rebond_moved(s: Seq<UnlockChunk>, v: u64) -> int
    decreases s.len(),
{
    if s.len() == 0 || v == 0 {
        0
    } else if v >= s.last().value {
        s.last().value + rebond_moved(s.drop_last(), (v - s.last().value) as u64)
    } else {
        v as int
    }
}

/// The chunks still locked at era `cur`: the queue without its due prefix.
pub open spec fn keep_locked(s: Seq<UnlockChunk>, cur: u32) -> Seq<UnlockChunk>
    decreases s.len(),
{
    if s.len() > 0 && s[0].era <= cur {
        keep_locked(s.subrange(1, s.len() as int), cur)
    } else {
        s
    }
}

/// A ledger update at one controller that keeps the stash and all invariants
/// preserves global well-formedness.
pub proof fn lemma_wf_ledger_update(pre: Staking, post: Staking, c: u64, l: StakingLedger)
    requires
        pre.wf(),
        pre.ledger.contains_key(c),
        post.ledger.wf(),
        post.ledger.spec_get(c) == Some(l),
        l.wf(),
        l.stash == pre.ledger.spec_get(c).unwrap().stash,
        forall|c2: u64| c2 != c ==> #[trigger] post.ledger.spec_get(c2) == pre.ledger.spec_get(c2),
        forall|c2: u64| #[trigger] post.ledger.contains_key(c2) <==> (c2 == c || pre.ledger.contains_key(c2)),
        post == (Staking { ledger: post.ledger, ..pre }),
    ensures
        post.wf(),
{
    assert forall|c2: u64| post.ledger.contains_key(c2) implies (#[trigger] post.ledger.spec_get(
        c2,
    )).unwrap().wf() by {
        if c2 != c {
            assert(pre.ledger.contains_key(c2));
        }
    }
    assert forall|c2: u64| post.ledger.contains_key(c2) implies post.bonded.spec_get(
        (#[trigger] post.ledger.spec_get(c2)).unwrap().stash,
    ) == Some(c2) by {
        if c2 != c {
            assert(pre.ledger.contains_key(c2));
        }
    }
    assert forall|s: u64| post.bonded.contains_key(s) implies {
        let c2 = (#[trigger] post.bonded.spec_get(s)).unwrap();
        &&& post.ledger.contains_key(c2)
        &&& post.ledger.spec_get(c2).unwrap().stash == s
    } by {
        let c2 = post.bonded.spec_get(s).unwrap();
        assert(pre.ledger.contains_key(c2) && pre.ledger.spec_get(c2).unwrap().stash == s);
    }
}

impl Staking {
    /// Create a new bonded ledger: `stash` puts `value` (clamped to its free
    /// balance) at stake, managed by `controller`, rewards routed to `dest`.
    pub fn bond(
        &mut self,
        stash: u64,
        controller: u64,
        value: u64,
        dest: RewardDestination,
    ) -> (r: Result<(), Error>)
        requires
            old(self).wf(),
        ensures
            final(self).wf(),
            r is Err ==> *final(self) == *old(self),
            r == if old(self).bonded.contains_key(stash) {
                Err::<(), Error>(Error::AlreadyBonded)
            } else if old(self).ledger.contains_key(controller) {
                Err::<(), Error>(Error::AlreadyPaired)
            } else if value < old(self).minimum_balance {
                Err::<(), Error>(Error::InsufficientBond)
            } else {
                Ok::<(), Error>(())
            },
            r is Ok ==> ({
                let amt = min64(value, old(self).balance_of(stash));
                let l = final(self).ledger.spec_get(controller).unwrap();
                &&& final(self).ledger.contains_key(controller)
                &&& l.stash == stash
                &&& l.total == amt
                &&& l.active == amt
                &&& l.unlocking@.len() == 0
                &&& final(self).bonded.spec_get(stash) == Some(controller)
                &&& final(self).payee.spec_get(stash) == Some(dest)
                &&& forall|k: u64|
                    k != controller ==> #[trigger] final(self).ledger.spec_get(k) == old(
                        self,
                    ).ledger.spec_get(k)
                &&& forall|k: u64|
                    k != stash ==> #[trigger] final(self).bonded.spec_get(k) == old(
                        self,
                    ).bonded.spec_get(k)
                &&& forall|k: u64|
                    k != stash ==> #[trigger] final(self).payee.spec_get(k) == old(
                        self,
                    ).payee.spec_get(k)
                &&& forall|k: u64|
                    #[trigger] final(self).ledger.contains_key(k) <==> (k == controller || old(
                        self,
                    ).ledger.contains_key(k))
                &&& forall|k: u64|
                    #[trigger] final(self).bonded.contains_key(k) <==> (k == stash || old(
                        self,
                    ).bonded.contains_key(k))
                &&& *final(self) == (Staking {
                    bonded: final(self).bonded,
                    ledger: final(self).ledger,
                    payee: final(self).payee,
                    ..*old(self)
                })
            }),
    {
        if self.bonded.contains(stash) {
            return Err(Error::AlreadyBonded);
        }
        if self.ledger.contains(controller) {
            return Err(Error::AlreadyPaired);
        }
        if value < self.minimum_balance {
            return Err(Error::InsufficientBond);
        }
        let free = match self.free_balance.get(stash) {
            Some(b) => *b,
            None => 0,
        };
        let amt = min_u64(value, free);
        let l = StakingLedger { stash, total: amt, active: amt, unlocking: Vec::new() };
        proof {
            assert(sum_unlock(l.unlocking@) == 0);
        }
        self.ledger.insert(controller, l);
        self.bonded.insert(stash, controller);
        self.payee.insert(stash, dest);
        proof {
            let pre = *old(self);
            let post = *self;
            assert forall|c2: u64| post.ledger.contains_key(c2) implies (
            #[trigger] post.ledger.spec_get(c2)).unwrap().wf() by {
                if c2 != controller {
                    assert(pre.ledger.contains_key(c2));
                }
            }
            assert forall|c2: u64| post.ledger.contains_key(c2) implies post.bonded.spec_get(
                (#[trigger] post.ledger.spec_get(c2)).unwrap().stash,
            ) == Some(c2) by {
                if c2 != controller {
                    assert(pre.ledger.contains_key(c2));
                    let s2 = pre.ledger.spec_get(c2).unwrap().stash;
                    assert(pre.bonded.spec_get(s2) == Some(c2));
                    assert(s2 != stash);
                }
            }
            assert forall|s2: u64| post.bonded.contains_key(s2) implies {
                let c2 = (#[trigger] post.bonded.spec_get(s2)).unwrap();
                &&& post.ledger.contains_key(c2)
                &&& post.ledger.spec_get(c2).unwrap().stash == s2
            } by {
                if s2 != stash {
                    assert(pre.bonded.contains_key(s2));
                    let c2 = pre.bonded.spec_get(s2).unwrap();
                    assert(pre.ledger.contains_key(c2));
                    assert(c2 != controller);
                }
            }
        }
        Ok(())
    }

    /// Add more of the stash's free funds to both `active` and `total`.
    /// Clamped so that the ledger never exceeds the stash's free balance.
    pub fn bond_extra(&mut self, stash: u64, max_additional: u64) -> (r: Result<(), Error>)
        requires
            old(self).wf(),
        ensures
            final(self).wf(),
            r is Err ==> *final(self) == *old(self),
            r == if old(self).bonded.contains_key(stash) {
                Ok::<(), Error>(())
            } else {
                Err::<(), Error>(Error::NotStash)
            },
            r is Ok ==> ({
                let c = old(self).bonded.spec_get(stash).unwrap();
                let l = old(self).ledger.spec_get(c).unwrap();
                let extra = if old(self).balance_of(stash) > l.total {
                    min64((old(self).balance_of(stash) - l.total) as u64, max_additional)
                } else {
                    0
                };
                let nl = final(self).ledger.spec_get(c).unwrap();
                &&& nl.stash == l.stash
                &&& nl.total == l.total + extra
                &&& nl.active == l.active + extra
                &&& nl.unlocking@ == l.unlocking@
                &&& forall|k: u64|
                    k != c ==> #[trigger] final(self).ledger.spec_get(k) == old(
                        self,
                    ).ledger.spec_get(k)
                &&& forall|k: u64|
                    #[trigger] final(self).ledger.contains_key(k) <==> old(
                        self,
                    ).ledger.contains_key(k)
                &&& *final(self) == (Staking { ledger: final(self).ledger, ..*old(self) })
            }),
    {
        let controller = match self.bonded.get(stash) {
            Some(c) => *c,
            None => {
                return Err(Error::NotStash);
            },
        };
        let free = match self.free_balance.get(stash) {
            Some(b) => *b,
            None => 0,
        };
        let mut l = self.ledger.remove(controller).unwrap();
        let ghost l0 = l;
        let extra = if free > l.total {
            min_u64(free - l.total, max_additional)
        } else {
            0
        };
        proof {
            lemma_sum_unlock_nonneg(l.unlocking@);
        }
        l.total = l.total + extra;
        l.active = l.active + extra;
        self.ledger.insert(controller, l);
        proof {
            lemma_wf_ledger_update(*old(self), *self, controller, l);
        }
        Ok(())
    }
    /// Schedule `value` (clamped to the active stake) for unlocking
    /// `bonding_duration` eras from now, merging with the newest chunk when
    /// it already waits for that era.
    pub fn unbond(&mut self, controller: u64, value: u64) -> (r: Result<(), Error>)
        requires
            old(self).wf(),
        ensures
            final(self).wf(),
            r is Err ==> *final(self) == *old(self),
            r == if old(self).ledger.contains_key(controller) {
                Ok::<(), Error>(())
            } else {
                Err::<(), Error>(Error::NotController)
            },
            r is Ok ==> ({
                let l = old(self).ledger.spec_get(controller).unwrap();
                let amt = min64(value, l.active);
                let nl = final(self).ledger.spec_get(controller).unwrap();
                &&& nl.stash == l.stash
                &&& nl.total == l.total
                &&& nl.active == l.active - amt
                &&& (amt == 0 ==> nl.unlocking@ == l.unlocking@)
                &&& (amt > 0 ==> nl.unlocking@ == unbond_chunks(
                    l.unlocking@,
                    amt,
                    unbond_target_era(*old(self)),
                ))
                &&& forall|k: u64|
                    k != controller ==> #[trigger] final(self).ledger.spec_get(k) == old(
                        self,
                    ).ledger.spec_get(k)
                &&& forall|k: u64|
                    #[trigger] final(self).ledger.contains_key(k) <==> old(
                        self,
                    ).ledger.contains_key(k)
                &&& *final(self) == (Staking { ledger: final(self).ledger, ..*old(self) })
            }),
    {
        if !self.ledger.contains(controller) {
            return Err(Error::NotController);
        }
        let era = self.era_index();
        let target = if era <= u32::MAX - self.bonding_duration {
            era + self.bonding_duration
        } else {
            u32::MAX
        };
        let mut l = self.ledger.remove(controller).unwrap();
        let ghost l0 = l;
        let amt = min_u64(value, l.active);
        if amt > 0 {
            l.active = l.active - amt;
            let n = l.unlocking.len();
            proof {
                if n > 0 {
                    lemma_sum_unlock_nonneg(l.unlocking@.drop_last());
                }
            }
            if n > 0 && l.unlocking[n - 1].era >= target {
                let c = l.unlocking.pop().unwrap();
                let merged = UnlockChunk { value: c.value + amt, era: c.era };
                l.unlocking.push(merged);
                proof {
                    assert(l.unlocking@ =~= l0.unlocking@.update(
                        l0.unlocking@.len() - 1,
                        merged,
                    ));
                    lemma_sum_unlock_update(l0.unlocking@, l0.unlocking@.len() - 1, merged);
                }
            } else {
                let c = UnlockChunk { value: amt, era: target };
                l.unlocking.push(c);
                proof {
                    lemma_sum_unlock_push(l0.unlocking@, c);
                    assert forall|i: int, j: int| 0 <= i < j < l.unlocking@.len() implies (
                    #[trigger] l.unlocking@[i]).era < (#[trigger] l.unlocking@[j]).era by {
                        if j == l.unlocking@.len() - 1 && n > 0 {
                            if i < n - 1 {
                                assert(l0.unlocking@[i].era < l0.unlocking@[n - 1].era);
                            }
                        }
                    }
                }
            }
        }
        self.ledger.insert(controller, l);
        proof {
            lemma_wf_ledger_update(*old(self), *self, controller, l);
        }
        Ok(())
    }

    /// Move up to `value` from the unlocking queue back into active stake,
    /// consuming the most recently queued chunks first.
    pub fn rebond(&mut self, controller: u64, value: u64) -> (r: Result<(), Error>)
        requires
            old(self).wf(),
        ensures
            final(self).wf(),
            r is Err ==> *final(self) == *old(self),
            r == if !old(self).ledger.contains_key(controller) {
                Err::<(), Error>(Error::NotController)
            } else if old(self).ledger.spec_get(controller).unwrap().unlocking@.len() == 0 {
                Err::<(), Error>(Error::NoUnlockChunk)
            } else {
                Ok::<(), Error>(())
            },
            r is Ok ==> ({
                let l = old(self).ledger.spec_get(controller).unwrap();
                let nl = final(self).ledger.spec_get(controller).unwrap();
                &&& nl.stash == l.stash
                &&& nl.total == l.total
                &&& nl.active as int == l.active as int + rebond_moved(l.unlocking@, value)
                &&& nl.unlocking@ == rebond_chunks(l.unlocking@, value)
                &&& forall|k: u64|
                    k != controller ==> #[trigger] final(self).ledger.spec_get(k) == old(
                        self,
                    ).ledger.spec_get(k)
                &&& forall|k: u64|
                    #[trigger] final(self).ledger.contains_key(k) <==> old(
                        self,
                    ).ledger.contains_key(k)
                &&& *final(self) == (Staking { ledger: final(self).ledger, ..*old(self) })
            }),
    {
        if !self.ledger.contains(controller) {
            return Err(Error::NotController);
        }
        let queue_len = match self.ledger.get(controller) {
            Some(lr) => lr.unlocking.len(),
            None => 0,
        };
        if queue_len == 0 {
            return Err(Error::NoUnlockChunk);
        }
        let mut l = self.ledger.remove(controller).unwrap();
        let ghost l0 = l;
        let mut rem: u64 = value;
        while rem > 0 && l.unlocking.len() > 0
            invariant
                l0.wf(),
                l.stash == l0.stash,
                l.total == l0.total,
                rem <= value,
                l.total as int == l.active as int + sum_unlock(l.unlocking@),
                l.active as int == l0.active as int + (value - rem),
                forall|i: int, j: int|
                    0 <= i < j < l.unlocking@.len() ==> (#[trigger] l.unlocking@[i]).era < (
                    #[trigger] l.unlocking@[j]).era,
                rebond_chunks(l0.unlocking@, value) == rebond_chunks(l.unlocking@, rem),
                rebond_moved(l0.unlocking@, value) == (value - rem) + rebond_moved(
                    l.unlocking@,
                    rem,
                ),
            decreases l.unlocking.len() + rem,
        {
            let li = l.unlocking.len() - 1;
            let c = l.unlocking[li];
            let ghost s = l.unlocking@;
            proof {
                lemma_sum_unlock_nonneg(s.drop_last());
                assert(sum_unlock(s) == sum_unlock(s.drop_last()) + c.value);
            }
            if rem >= c.value {
                l.unlocking.pop();
                l.active = l.active + c.value;
                rem = rem - c.value;
            } else {
                l.unlocking.pop();
                let nc = UnlockChunk { value: c.value - rem, era: c.era };
                l.unlocking.push(nc);
                proof {
                    assert(l.unlocking@ =~= s.update(s.len() - 1, nc));
                    lemma_sum_unlock_update(s, s.len() - 1, nc);
                }
                l.active = l.active + rem;
                rem = 0;
            }
        }
        self.ledger.insert(controller, l);
        proof {
            lemma_wf_ledger_update(*old(self), *self, controller, l);
        }
        Ok(())
    }

    /// Remove every record of a bonded stash: ledger, pairing, payee and any
    /// validator or nominator intent.
    pub fn purge_stash(&mut self, stash: u64)
        requires
            old(self).wf(),
            old(self).bonded.contains_key(stash),
        ensures
            final(self).wf(),
            !final(self).bonded.contains_key(stash),
            !final(self).ledger.contains_key(old(self).bonded.spec_get(stash).unwrap()),
            !final(self).payee.contains_key(stash),
            !final(self).validators.contains_key(stash),
            !final(self).nominators.contains_key(stash),
            forall|k: u64|
                k != stash ==> #[trigger] final(self).bonded.spec_get(k) == old(
                    self,
                ).bonded.spec_get(k),
            forall|k: u64|
                k != old(self).bonded.spec_get(stash).unwrap() ==> #[trigger] final(self).ledger.spec_get(k) == old(self).ledger.spec_get(k),
            forall|k: u64|
                k != stash ==> #[trigger] final(self).payee.spec_get(k) == old(
                    self,
                ).payee.spec_get(k),
            forall|k: u64|
                k != stash ==> #[trigger] final(self).validators.spec_get(k) == old(
                    self,
                ).validators.spec_get(k),
            forall|k: u64|
                k != stash ==> #[trigger] final(self).nominators.spec_get(k) == old(
                    self,
                ).nominators.spec_get(k),
            forall|k: u64|
                #[trigger] final(self).bonded.contains_key(k) <==> (k != stash && old(
                    self,
                ).bonded.contains_key(k)),
            forall|k: u64|
                #[trigger] final(self).ledger.contains_key(k) <==> (k != old(
                    self,
                ).bonded.spec_get(stash).unwrap() && old(self).ledger.contains_key(k)),
            forall|k: u64|
                #[trigger] final(self).validators.contains_key(k) <==> (k != stash && old(
                    self,
                ).validators.contains_key(k)),
            forall|k: u64|
                #[trigger] final(self).nominators.contains_key(k) <==> (k != stash && old(
                    self,
                ).nominators.contains_key(k)),
            *final(self) == (Staking {
                bonded: final(self).bonded,
                ledger: final(self).ledger,
                payee: final(self).payee,
                validators: final(self).validators,
                nominators: final(self).nominators,
                ..*old(self)
            }),
    {
        let controller = match self.bonded.get(stash) {
            Some(c) => *c,
            None => 0,
        };
        self.ledger.remove(controller);
        self.bonded.remove(stash);
        self.payee.remove(stash);
        self.validators.remove(stash);
        self.nominators.remove(stash);
        proof {
            let pre = *old(self);
            let post = *self;
            assert forall|c2: u64| post.ledger.contains_key(c2) implies (
            #[trigger] post.ledger.spec_get(c2)).unwrap().wf() by {
                assert(pre.ledger.contains_key(c2));
            }
            assert forall|c2: u64| post.ledger.contains_key(c2) implies post.bonded.spec_get(
                (#[trigger] post.ledger.spec_get(c2)).unwrap().stash,
            ) == Some(c2) by {
                assert(pre.ledger.contains_key(c2));
                let s2 = pre.ledger.spec_get(c2).unwrap().stash;
                assert(pre.bonded.spec_get(s2) == Some(c2));
                if s2 == stash {
                    assert(c2 == controller);
                }
            }
            assert forall|s2: u64| post.bonded.contains_key(s2) implies {
                let c2 = (#[trigger] post.bonded.spec_get(s2)).unwrap();
                &&& post.ledger.contains_key(c2)
                &&& post.ledger.spec_get(c2).unwrap().stash == s2
            } by {
                assert(pre.bonded.contains_key(s2));
                let c2 = pre.bonded.spec_get(s2).unwrap();
                assert(pre.ledger.contains_key(c2) && pre.ledger.spec_get(c2).unwrap().stash
                    == s2);
                if c2 == controller {
                    assert(pre.ledger.spec_get(controller).unwrap().stash == stash);
                }
            }
            assert forall|s2: u64| #[trigger]
                post.validators.contains_key(s2) implies !post.nominators.contains_key(s2) by {
                assert(pre.validators.contains_key(s2));
            }
            assert forall|s2: u64| post.validators.contains_key(s2) implies (
            #[trigger] post.validators.spec_get(s2)).unwrap().commission.wf() by {
                assert(pre.validators.contains_key(s2));
            }
            assert forall|s2: u64| post.nominators.contains_key(s2) implies (
            #[trigger] post.nominators.spec_get(s2)).unwrap().wf() by {
                assert(pre.nominators.contains_key(s2));
            }
        }
    }

    /// Release every unlocking chunk whose era has arrived, reducing `total`;
    /// when `total` reaches zero the stash is reaped entirely. Returns
    /// whether the stash was reaped.
    pub fn withdraw_unbonded(&mut self, controller: u64) -> (r: Result<bool, Error>)
        requires
            old(self).wf(),
        ensures
            final(self).wf(),
            r is Err ==> *final(self) == *old(self),
            r is Err <==> !old(self).ledger.contains_key(controller),
            r is Err ==> r == Err::<bool, Error>(Error::NotController),
            r is Ok ==> ({
                let l = old(self).ledger.spec_get(controller).unwrap();
                let kept = keep_locked(l.unlocking@, old(self).era_now());
                let nt = l.active as int + sum_unlock(kept);
                &&& r == Ok::<bool, Error>(nt == 0)
                &&& (nt > 0 ==> ({
                    let nl = final(self).ledger.spec_get(controller).unwrap();
                    &&& nl.stash == l.stash
                    &&& nl.active == l.active
                    &&& nl.unlocking@ == kept
                    &&& nl.total as int == nt
                    &&& forall|k: u64|
                        k != controller ==> #[trigger] final(self).ledger.spec_get(k) == old(
                            self,
                        ).ledger.spec_get(k)
                    &&& forall|k: u64|
                        #[trigger] final(self).ledger.contains_key(k) <==> old(
                            self,
                        ).ledger.contains_key(k)
                    &&& *final(self) == (Staking { ledger: final(self).ledger, ..*old(self) })
                }))
                &&& (nt == 0 ==> ({
                    &&& !final(self).bonded.contains_key(l.stash)
                    &&& !final(self).ledger.contains_key(controller)
                    &&& !final(self).payee.contains_key(l.stash)
                    &&& !final(self).validators.contains_key(l.stash)
                    &&& !final(self).nominators.contains_key(l.stash)
                    &&& forall|k: u64|
                        k != controller ==> #[trigger] final(self).ledger.spec_get(k) == old(
                            self,
                        ).ledger.spec_get(k)
                    &&& forall|k: u64|
                        k != l.stash ==> #[trigger] final(self).bonded.spec_get(k) == old(
                            self,
                        ).bonded.spec_get(k)
                    &&& forall|k: u64|
                        k != l.stash ==> (#[trigger] final(self).validators.spec_get(k) == old(
                            self,
                        ).validators.spec_get(k) && final(self).nominators.spec_get(k) == old(
                            self,
                        ).nominators.spec_get(k))
                    &&& *final(self) == (Staking {
                        bonded: final(self).bonded,
                        ledger: final(self).ledger,
                        payee: final(self).payee,
                        validators: final(self).validators,
                        nominators: final(self).nominators,
                        ..*old(self)
                    })
                }))
            }),
    {
        if !self.ledger.contains(controller) {
            return Err(Error::NotController);
        }
        let era = self.era_index();
        let mut l = self.ledger.remove(controller).unwrap();
        let ghost l0 = l;
        while l.unlocking.len() > 0 && l.unlocking[0].era <= era
            invariant
                l.stash == l0.stash,
                l.active == l0.active,
                l.total as int == l.active as int + sum_unlock(l.unlocking@),
                forall|i: int, j: int|
                    0 <= i < j < l.unlocking@.len() ==> (#[trigger] l.unlocking@[i]).era < (
                    #[trigger] l.unlocking@[j]).era,
                keep_locked(l0.unlocking@, era) == keep_locked(l.unlocking@, era),
            decreases l.unlocking.len(),
        {
            let ghost s = l.unlocking@;
            let c = l.unlocking.remove(0);
            proof {
                lemma_sum_unlock_drop_first(s);
                assert(l.unlocking@ =~= s.subrange(1, s.len() as int));
                lemma_sum_unlock_nonneg(l.unlocking@);
            }
            l.total = l.total - c.value;
        }
        proof {
            assert(keep_locked(l.unlocking@, era) == l.unlocking@);
        }
        if l.total == 0 {
            proof {
                lemma_sum_unlock_nonneg(l.unlocking@);
            }
            let stash = l.stash;
            self.ledger.insert(controller, l);
            proof {
                lemma_wf_ledger_update(*old(self), *self, controller, l);
            }
            self.purge_stash(stash);
            Ok(true)
        } else {
            self.ledger.insert(controller, l);
            proof {
                lemma_wf_ledger_update(*old(self), *self, controller, l);
            }
            Ok(false)
        }
    }

    /// Record where rewards for the calling controller's stash are paid.
    pub fn set_payee(&mut self, controller: u64, dest: RewardDestination) -> (r: Result<
        (),
        Error,
    >)
        requires
            old(self).wf(),
        ensures
            final(self).wf(),
            r is Err ==> *final(self) == *old(self),
            r == if old(self).ledger.contains_key(controller) {
                Ok::<(), Error>(())
            } else {
                Err::<(), Error>(Error::NotController)
            },
            r is Ok ==> ({
                let stash = old(self).ledger.spec_get(controller).unwrap().stash;
                &&& final(self).payee.spec_get(stash) == Some(dest)
                &&& forall|k: u64|
                    k != stash ==> #[trigger] final(self).payee.spec_get(k) == old(
                        self,
                    ).payee.spec_get(k)
                &&& *final(self) == (Staking { payee: final(self).payee, ..*old(self) })
            }),
    {
        let stash = match self.ledger.get(controller) {
            Some(l) => l.stash,
            None => {
                return Err(Error::NotController);
            },
        };
        self.payee.insert(stash, dest);
        Ok(())
    }

    /// Re-point a stash at a new controller, moving its ledger. Fails when
    /// the new controller already manages a different stash.
    pub fn set_controller(&mut self, stash: u64, new_controller: u64) -> (r: Result<(), Error>)
        requires
            old(self).wf(),
        ensures
            final(self).wf(),
            r is Err ==> *final(self) == *old(self),
            r == if !old(self).bonded.contains_key(stash) {
                Err::<(), Error>(Error::NotStash)
            } else if new_controller != old(self).bonded.spec_get(stash).unwrap() && old(
                self,
            ).ledger.contains_key(new_controller) {
                Err::<(), Error>(Error::AlreadyPaired)
            } else {
                Ok::<(), Error>(())
            },
            r is Ok ==> ({
                let old_c = old(self).bonded.spec_get(stash).unwrap();
                &&& (new_controller == old_c ==> *final(self) == *old(self))
                &&& (new_controller != old_c ==> ({
                    &&& final(self).bonded.spec_get(stash) == Some(new_controller)
                    &&& final(self).ledger.spec_get(new_controller) == old(self).ledger.spec_get(
                        old_c,
                    )
                    &&& !final(self).ledger.contains_key(old_c)
                    &&& forall|k: u64|
                        k != stash ==> #[trigger] final(self).bonded.spec_get(k) == old(
                            self,
                        ).bonded.spec_get(k)
                    &&& forall|k: u64|
                        (k != old_c && k != new_controller) ==> #[trigger] final(self).ledger.spec_get(k) == old(self).ledger.spec_get(k)
                    &&& *final(self) == (Staking {
                        bonded: final(self).bonded,
                        ledger: final(self).ledger,
                        ..*old(self)
                    })
                }))
            }),
    {
        let old_c = match self.bonded.get(stash) {
            Some(c) => *c,
            None => {
                return Err(Error::NotStash);
            },
        };
        if new_controller == old_c {
            return Ok(());
        }
        if self.ledger.contains(new_controller) {
            return Err(Error::AlreadyPaired);
        }
        let l = self.ledger.remove(old_c).unwrap();
        self.ledger.insert(new_controller, l);
        self.bonded.insert(stash, new_controller);
        proof {
            let pre = *old(self);
            let post = *self;
            assert forall|c2: u64| post.ledger.contains_key(c2) implies (
            #[trigger] post.ledger.spec_get(c2)).unwrap().wf() by {
                if c2 != new_controller {
                    assert(pre.ledger.contains_key(c2));
                }
            }
            assert forall|c2: u64| post.ledger.contains_key(c2) implies post.bonded.spec_get(
                (#[trigger] post.ledger.spec_get(c2)).unwrap().stash,
            ) == Some(c2) by {
                if c2 != new_controller {
                    assert(pre.ledger.contains_key(c2));
                    let s2 = pre.ledger.spec_get(c2).unwrap().stash;
                    assert(pre.bonded.spec_get(s2) == Some(c2));
                    if s2 == stash {
                        assert(c2 == old_c);
                    }
                } else {
                    assert(pre.ledger.spec_get(old_c).unwrap().stash == stash);
                }
            }
            assert forall|s2: u64| post.bonded.contains_key(s2) implies {
                let c2 = (#[trigger] post.bonded.spec_get(s2)).unwrap();
                &&& post.ledger.contains_key(c2)
                &&& post.ledger.spec_get(c2).unwrap().stash == s2
            } by {
                if s2 != stash {
                    assert(pre.bonded.contains_key(s2));
                    let c2 = pre.bonded.spec_get(s2).unwrap();
                    assert(pre.ledger.contains_key(c2) && pre.ledger.spec_get(
                        c2,
                    ).unwrap().stash == s2);
                    if c2 == old_c {
                        assert(pre.ledger.spec_get(old_c).unwrap().stash == stash);
                    }
                }
            }
        }
        Ok(())
    }

    /// Root-only: forcibly unstake a stash, purging every record of it.
    pub fn force_unstake(&mut self, stash: u64) -> (r: Result<(), Error>)
        requires
            old(self).wf(),
        ensures
            final(self).wf(),
            r is Err ==> *final(self) == *old(self),
            r == if old(self).bonded.contains_key(stash) {
                Ok::<(), Error>(())
            } else {
                Err::<(), Error>(Error::NotStash)
            },
            r is Ok ==> ({
                &&& !final(self).bonded.contains_key(stash)
                &&& !final(self).ledger.contains_key(old(self).bonded.spec_get(stash).unwrap())
                &&& !final(self).validators.contains_key(stash)
                &&& !final(self).nominators.contains_key(stash)
                &&& *final(self) == (Staking {
                    bonded: final(self).bonded,
                    ledger: final(self).ledger,
                    payee: final(self).payee,
                    validators: final(self).validators,
                    nominators: final(self).nominators,
                    ..*old(self)
                })
            }),
    {
        if !self.bonded.contains(stash) {
            return Err(Error::NotStash);
        }
        self.purge_stash(stash);
        Ok(())
    }

    /// Reap a stash whose funds are gone: allowed once its free balance is
    /// zero, purging every record of it.
    pub fn reap_stash(&mut self, stash: u64) -> (r: Result<(), Error>)
        requires
            old(self).wf(),
        ensures
            final(self).wf(),
            r is Err ==> *final(self) == *old(self),
            r == if !old(self).bonded.contains_key(stash) {
                Err::<(), Error>(Error::NotStash)
            } else if old(self).balance_of(stash) != 0 {
                Err::<(), Error>(Error::FundedTarget)
            } else {
                Ok::<(), Error>(())
            },
            r is Ok ==> ({
                &&& !final(self).bonded.contains_key(stash)
                &&& !final(self).ledger.contains_key(old(self).bonded.spec_get(stash).unwrap())
                &&& !final(self).validators.contains_key(stash)
                &&& !final(self).nominators.contains_key(stash)
                &&& *final(self) == (Staking {
                    bonded: final(self).bonded,
                    ledger: final(self).ledger,
                    payee: final(self).payee,
                    validators: final(self).validators,
                    nominators: final(self).nominators,
                    ..*old(self)
                })
            }),
    {
        if !self.bonded.contains(stash) {
            return Err(Error::NotStash);
        }
        let funded = match self.free_balance.get(stash) {
            Some(b) => *b != 0,
            None => false,
        };
        if funded {
            return Err(Error::FundedTarget);
        }
        self.purge_stash(stash);
        Ok(())
    }
}

} // verus!
