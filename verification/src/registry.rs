use vstd::prelude::*;
use crate::state::Staking;
use crate::types::{Error, Nominations, ValidatorPrefs, MAX_NOMINATIONS};

verus! {

/// A change confined to the two intent registries that keeps role
/// exclusivity preserves global well-formedness.
proof fn lemma_wf_roles_update(pre: Staking, post: Staking)
    requires
        pre.wf(),
        post.validators.wf(),
        post.nominators.wf(),
        post == (Staking { validators: post.validators, nominators: post.nominators, ..pre }),
        forall|s: u64| #[trigger] post.validators.contains_key(s) ==> !post.nominators.contains_key(s),
        forall|s: u64|
            post.validators.contains_key(s) ==> (#[trigger] post.validators.spec_get(
                s,
            )).unwrap().commission.wf(),
        forall|s: u64|
            post.nominators.contains_key(s) ==> (#[trigger] post.nominators.spec_get(
                s,
            )).unwrap().wf(),
    ensures
        post.wf(),
{
    assert forall|c2: u64| post.ledger.contains_key(c2) implies (#[trigger] post.ledger.spec_get(
        c2,
    )).unwrap().wf() by {
        assert(pre.ledger.contains_key(c2));
    }
}

impl Staking {
    /// Declare the intent to validate with the given preferences, clearing
    /// any nomination intent of the same stash.
    pub fn validate(&mut self, controller: u64, prefs: ValidatorPrefs) -> (r: Result<(), Error>)
        requires
            old(self).wf(),
            prefs.commission.wf(),
        ensures
            final(self).wf(),
            r is Err ==> *final(self) == *old(self),
            r == if old(self).ledger.contains_key(controller) {
                Ok::<(), Error>(())
            } else {
                Err::<(), Error>(Error::NotController)
            },
            r is Ok ==> ({
                let stash = old(self).ledger.spec_get(controller).unwrap().stash;
                &&& final(self).validators.spec_get(stash) == Some(prefs)
                &&& !final(self).nominators.contains_key(stash)
                &&& forall|k: u64|
                    k != stash ==> (#[trigger] final(self).validators.spec_get(k) == old(
                        self,
                    ).validators.spec_get(k) && final(self).nominators.spec_get(k) == old(
                        self,
                    ).nominators.spec_get(k))
                &&& forall|k: u64|
                    #[trigger] final(self).validators.contains_key(k) <==> (k == stash || old(
                        self,
                    ).validators.contains_key(k))
                &&& forall|k: u64|
                    #[trigger] final(self).nominators.contains_key(k) <==> (k != stash && old(
                        self,
                    ).nominators.contains_key(k))
                &&& final(self).validators.spec_len() == old(self).validators.spec_len() + (
                if old(self).validators.contains_key(stash) {
                    0int
                } else {
                    1int
                })
                &&& final(self).nominators.spec_len() == old(self).nominators.spec_len() - (
                if old(self).nominators.contains_key(stash) {
                    1int
                } else {
                    0int
                })
                &&& *final(self) == (Staking {
                    validators: final(self).validators,
                    nominators: final(self).nominators,
                    ..*old(self)
                })
            }),
    {
        let stash = match self.ledger.get(controller) {
            Some(l) => l.stash,
            None => {
                return Err(Error::NotController);
            },
        };
        self.nominators.remove(stash);
        self.validators.insert(stash, prefs);
        proof {
            let post = *self;
            assert forall|s2: u64| #[trigger]
                post.validators.contains_key(s2) implies !post.nominators.contains_key(s2) by {
                if s2 != stash {
                    assert(old(self).validators.contains_key(s2));
                }
            }
            assert forall|s2: u64| post.validators.contains_key(s2) implies (
            #[trigger] post.validators.spec_get(s2)).unwrap().commission.wf() by {
                if s2 != stash {
                    assert(old(self).validators.contains_key(s2));
                }
            }
            assert forall|s2: u64| post.nominators.contains_key(s2) implies (
            #[trigger] post.nominators.spec_get(s2)).unwrap().wf() by {
                assert(old(self).nominators.contains_key(s2));
            }
            lemma_wf_roles_update(*old(self), post);
        }
        Ok(())
    }

    /// Declare the intent to nominate the given distinct targets, clearing
    /// any validator intent of the same stash. At most `MAX_NOMINATIONS`
    /// targets are accepted, and the stash's active stake must reach the
    /// nominator minimum bond.
    pub fn nominate(&mut self, controller: u64, targets: Vec<u64>) -> (r: Result<(), Error>)
        requires
            old(self).wf(),
        ensures
            final(self).wf(),
            r is Err ==> *final(self) == *old(self),
            r == if !old(self).ledger.contains_key(controller) {
                Err::<(), Error>(Error::NotController)
            } else if targets@.len() == 0 {
                Err::<(), Error>(Error::EmptyTargets)
            } else if targets@.len() > MAX_NOMINATIONS {
                Err::<(), Error>(Error::TooManyTargets)
            } else if !targets@.no_duplicates() {
                Err::<(), Error>(Error::DuplicateTarget)
            } else if old(self).ledger.spec_get(controller).unwrap().active < old(
                self,
            ).min_nominator_bond {
                Err::<(), Error>(Error::InsufficientBond)
            } else {
                Ok::<(), Error>(())
            },
            r is Ok ==> ({
                let stash = old(self).ledger.spec_get(controller).unwrap().stash;
                let n = final(self).nominators.spec_get(stash).unwrap();
                &&& final(self).nominators.contains_key(stash)
                &&& n.targets@ == targets@
                &&& n.submitted_in == old(self).era_now()
                &&& !final(self).validators.contains_key(stash)
                &&& forall|k: u64|
                    k != stash ==> (#[trigger] final(self).validators.spec_get(k) == old(
                        self,
                    ).validators.spec_get(k) && final(self).nominators.spec_get(k) == old(
                        self,
                    ).nominators.spec_get(k))
                &&& forall|k: u64|
                    #[trigger] final(self).nominators.contains_key(k) <==> (k == stash || old(
                        self,
                    ).nominators.contains_key(k))
                &&& forall|k: u64|
                    #[trigger] final(self).validators.contains_key(k) <==> (k != stash && old(
                        self,
                    ).validators.contains_key(k))
                &&& final(self).nominators.spec_len() == old(self).nominators.spec_len() + (
                if old(self).nominators.contains_key(stash) {
                    0int
                } else {
                    1int
                })
                &&& final(self).validators.spec_len() == old(self).validators.spec_len() - (
                if old(self).validators.contains_key(stash) {
                    1int
                } else {
                    0int
                })
                &&& *final(self) == (Staking {
                    validators: final(self).validators,
                    nominators: final(self).nominators,
                    ..*old(self)
                })
            }),
    {
        let (stash, active) = match self.ledger.get(controller) {
            Some(l) => (l.stash, l.active),
            None => {
                return Err(Error::NotController);
            },
        };
        if targets.len() == 0 {
            return Err(Error::EmptyTargets);
        }
        if targets.len() > MAX_NOMINATIONS {
            return Err(Error::TooManyTargets);
        }
        if has_duplicate(&targets) {
            return Err(Error::DuplicateTarget);
        }
        if active < self.min_nominator_bond {
            return Err(Error::InsufficientBond);
        }
        let submitted_in = self.era_index();
        let noms = Nominations { targets, submitted_in };
        self.validators.remove(stash);
        self.nominators.insert(stash, noms);
        proof {
            let post = *self;
            assert forall|s2: u64| #[trigger]
                post.validators.contains_key(s2) implies !post.nominators.contains_key(s2) by {
                assert(old(self).validators.contains_key(s2));
                assert(!old(self).nominators.contains_key(s2));
            }
            assert forall|s2: u64| post.validators.contains_key(s2) implies (
            #[trigger] post.validators.spec_get(s2)).unwrap().commission.wf() by {
                assert(old(self).validators.contains_key(s2));
            }
            assert forall|s2: u64| post.nominators.contains_key(s2) implies (
            #[trigger] post.nominators.spec_get(s2)).unwrap().wf() by {
                if s2 != stash {
                    assert(old(self).nominators.contains_key(s2));
                }
            }
            lemma_wf_roles_update(*old(self), post);
        }
        Ok(())
    }

    /// Withdraw from both validating and nominating; a no-op when neither
    /// intent is present.
    pub fn chill(&mut self, controller: u64) -> (r: Result<(), Error>)
        requires
            old(self).wf(),
        ensures
            final(self).wf(),
            r is Err ==> *final(self) == *old(self),
            r == if old(self).ledger.contains_key(controller) {
                Ok::<(), Error>(())
            } else {
                Err::<(), Error>(Error::NotController)
            },
            r is Ok ==> ({
                let stash = old(self).ledger.spec_get(controller).unwrap().stash;
                &&& !final(self).validators.contains_key(stash)
                &&& !final(self).nominators.contains_key(stash)
                &&& forall|k: u64|
                    k != stash ==> (#[trigger] final(self).validators.spec_get(k) == old(
                        self,
                    ).validators.spec_get(k) && final(self).nominators.spec_get(k) == old(
                        self,
                    ).nominators.spec_get(k))
                &&& forall|k: u64|
                    #[trigger] final(self).validators.contains_key(k) <==> (k != stash && old(
                        self,
                    ).validators.contains_key(k))
                &&& forall|k: u64|
                    #[trigger] final(self).nominators.contains_key(k) <==> (k != stash && old(
                        self,
                    ).nominators.contains_key(k))
                &&& *final(self) == (Staking {
                    validators: final(self).validators,
                    nominators: final(self).nominators,
                    ..*old(self)
                })
            }),
    {
        let stash = match self.ledger.get(controller) {
            Some(l) => l.stash,
            None => {
                return Err(Error::NotController);
            },
        };
        self.validators.remove(stash);
        self.nominators.remove(stash);
        proof {
            let post = *self;
            assert forall|s2: u64| #[trigger]
                post.validators.contains_key(s2) implies !post.nominators.contains_key(s2) by {
                assert(old(self).validators.contains_key(s2));
            }
            assert forall|s2: u64| post.validators.contains_key(s2) implies (
            #[trigger] post.validators.spec_get(s2)).unwrap().commission.wf() by {
                assert(old(self).validators.contains_key(s2));
            }
            assert forall|s2: u64| post.nominators.contains_key(s2) implies (
            #[trigger] post.nominators.spec_get(s2)).unwrap().wf() by {
                assert(old(self).nominators.contains_key(s2));
            }
            lemma_wf_roles_update(*old(self), post);
        }
        Ok(())
    }
}

/// Whether the vector holds the same value twice.
pub fn has_duplicate(v: &Vec<u64>) -> (r: bool)
    ensures
        r == !v@.no_duplicates(),
{
    let n = v.len();
    let mut i: usize = 0;
    while i < n
        invariant
            n == v@.len(),
            i <= n,
            forall|p: int, q: int| 0 <= p < q < n && p < i ==> v@[p] != v@[q],
        decreases n - i,
    {
        let mut j: usize = i + 1;
        while j < n
            invariant
                n == v@.len(),
                i < n,
                i < j <= n,
                forall|q: int| i < q < j ==> v@[i as int] != v@[q],
            decreases n - j,
        {
            if v[i] == v[j] {
                return true;
            }
            j += 1;
        }
        i += 1;
    }
    false
}

} // verus!
