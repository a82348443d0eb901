use vstd::prelude::*;
use crate::state::Staking;
use crate::types::{copy_vec_u64, Error, Perbill, RewardDestination, ValidatorPrefs, MAX_NOMINATIONS};
use crate::rng::{chacha_from_seed, chacha_next_u32};


verus! {

/// Account-id domain for generated stash accounts.
pub const STASH_DOMAIN: u32 = 1;

/// Account-id domain for generated controller accounts.
pub const CONTROLLER_DOMAIN: u32 = 2;

/// Deterministic account id for fixture account `n` of a domain.
pub open spec fn account_id(domain: u32, n: u32) -> u64 {
    ((domain as int) * 0x1_0000_0000 + n as int) as u64
}

pub proof fn lemma_account_id_injective(d1: u32, n1: u32, d2: u32, n2: u32)
    ensures
        account_id(d1, n1) == account_id(d2, n2) ==> (d1 == d2 && n1 == n2),
{
    assert((d1 as int) * 0x1_0000_0000 + n1 as int == (d2 as int) * 0x1_0000_0000 + n2 as int
        ==> (d1 == d2 && n1 == n2)) by (nonlinear_arith)
        requires
            n1 <= 0xffff_ffffu32,
            n2 <= 0xffff_ffffu32,
    ;
    assert((d1 as int) * 0x1_0000_0000 + n1 as int <= 0xffff_ffff_ffff_ffff) by (nonlinear_arith)
        requires
            d1 <= 0xffff_ffffu32,
            n1 <= 0xffff_ffffu32,
    ;
    assert((d2 as int) * 0x1_0000_0000 + n2 as int <= 0xffff_ffff_ffff_ffff) by (nonlinear_arith)
        requires
            d2 <= 0xffff_ffffu32,
            n2 <= 0xffff_ffffu32,
    ;
}

/// Whether `x` is the stash id of one of the first `v` fixture validators.
pub open spec fn fixture_validator_id(x: u64, v: u32) -> bool {
    exists|j: int| 0 <= j < v && x == #[trigger] account_id(STASH_DOMAIN, j as u32)
}

/// Compute the deterministic account id of a fixture account.
pub fn make_account_id(domain: u32, n: u32) -> (r: u64)
    ensures
        r == account_id(domain, n),
{
    proof {
        assert((domain as int) * 0x1_0000_0000 + n as int <= 0xffff_ffff_ffff_ffff) by (
        nonlinear_arith)
            requires
                domain <= 0xffff_ffffu32,
                n <= 0xffff_ffffu32,
        ;
    }
    (domain as u64) * 0x1_0000_0000u64 + n as u64
}

impl Staking {
    /// Endow fixture account `n` of a domain with a hundred times the
    /// minimum balance, the funding every synthetic fixture account gets.
    pub fn create_funded_user(&mut self, domain: u32, n: u32) -> (r: u64)
        requires
            old(self).wf(),
            old(self).minimum_balance <= u64::MAX / 100,
        ensures
            final(self).wf(),
            r == account_id(domain, n),
            final(self).balance_of(r) == old(self).minimum_balance * 100,
            forall|w: u64| w != r ==> final(self).balance_of(w) == old(self).balance_of(w),
            *final(self) == (Staking { free_balance: final(self).free_balance, ..*old(self) }),
    {
        let id = make_account_id(domain, n);
        let balance = self.minimum_balance * 100;
        self.set_free_balance(id, balance);
        id
    }

    /// Create and fund a fresh (stash, controller) pair, bonding ten times
    /// the minimum balance with rewards staked.
    pub fn create_stash_controller(&mut self, n: u32) -> (r: Result<(u64, u64), Error>)
        requires
            old(self).wf(),
            old(self).minimum_balance <= u64::MAX / 100,
            !old(self).bonded.contains_key(account_id(STASH_DOMAIN, n)),
            !old(self).ledger.contains_key(account_id(CONTROLLER_DOMAIN, n)),
        ensures
            final(self).wf(),
            r == Ok::<(u64, u64), Error>((account_id(STASH_DOMAIN, n), account_id(
                CONTROLLER_DOMAIN,
                n,
            ))),
            ({
                let stash = account_id(STASH_DOMAIN, n);
                let controller = account_id(CONTROLLER_DOMAIN, n);
                let l = final(self).ledger.spec_get(controller).unwrap();
                &&& final(self).bonded.spec_get(stash) == Some(controller)
                &&& final(self).ledger.contains_key(controller)
                &&& l.stash == stash
                &&& l.active == old(self).minimum_balance * 10
                &&& l.total == old(self).minimum_balance * 10
                &&& l.unlocking@.len() == 0
                &&& forall|k: u64|
                    k != stash ==> #[trigger] final(self).bonded.spec_get(k) == old(
                        self,
                    ).bonded.spec_get(k)
                &&& forall|k: u64|
                    k != controller ==> #[trigger] final(self).ledger.spec_get(k) == old(
                        self,
                    ).ledger.spec_get(k)
                &&& forall|k: u64|
                    #[trigger] final(self).bonded.contains_key(k) <==> (k == stash || old(
                        self,
                    ).bonded.contains_key(k))
                &&& forall|k: u64|
                    #[trigger] final(self).ledger.contains_key(k) <==> (k == controller || old(
                        self,
                    ).ledger.contains_key(k))
                &&& final(self).payee.spec_get(stash) == Some(RewardDestination::Staked)
                &&& forall|k: u64|
                    k != stash ==> #[trigger] final(self).payee.spec_get(k) == old(
                        self,
                    ).payee.spec_get(k)
                &&& final(self).balance_of(stash) == old(self).minimum_balance * 100
                &&& final(self).balance_of(controller) == old(self).minimum_balance * 100
                &&& forall|w: u64|
                    w != stash && w != controller ==> #[trigger] final(self).balance_of(w)
                        == old(self).balance_of(w)
                &&& *final(self) == (Staking {
                    bonded: final(self).bonded,
                    ledger: final(self).ledger,
                    payee: final(self).payee,
                    free_balance: final(self).free_balance,
                    ..*old(self)
                })
            }),
    {
        proof {
            lemma_account_id_injective(STASH_DOMAIN, n, CONTROLLER_DOMAIN, n);
        }
        let stash = self.create_funded_user(STASH_DOMAIN, n);
        let controller = self.create_funded_user(CONTROLLER_DOMAIN, n);
        let amount = self.minimum_balance * 10;
        let res = self.bond(stash, controller, amount, RewardDestination::Staked);
        proof {
            assert(res is Ok);
        }
        Ok((stash, controller))
    }
    /// Create `max` funded validators with a fifty-percent commission,
    /// returning their stashes.
    pub fn create_validators(&mut self, max: u32) -> (r: Result<Vec<u64>, Error>)
        requires
            old(self).wf(),
            old(self).minimum_balance <= u64::MAX / 100,
            forall|s: u64| !old(self).bonded.contains_key(s),
            forall|s: u64| !old(self).ledger.contains_key(s),
            forall|s: u64|
                !old(self).validators.contains_key(s) && !old(self).nominators.contains_key(s),
            old(self).validators.spec_len() == 0,
            old(self).nominators.spec_len() == 0,
        ensures
            final(self).wf(),
            r is Ok,
            r.unwrap()@.len() == max,
            forall|j: int|
                0 <= j < max ==> #[trigger] r.unwrap()@[j] == account_id(STASH_DOMAIN, j as u32),
            final(self).validators.spec_len() == max,
            final(self).nominators.spec_len() == 0,
            forall|s: u64|
                #[trigger] final(self).bonded.contains_key(s) <==> exists|j: int|
                    0 <= j < max && s == #[trigger] account_id(STASH_DOMAIN, j as u32),
            forall|s: u64|
                #[trigger] final(self).ledger.contains_key(s) <==> exists|j: int|
                    0 <= j < max && s == #[trigger] account_id(CONTROLLER_DOMAIN, j as u32),
            forall|s: u64|
                #[trigger] final(self).validators.contains_key(s) <==> exists|j: int|
                    0 <= j < max && s == #[trigger] account_id(STASH_DOMAIN, j as u32),
            forall|s: u64| !final(self).nominators.contains_key(s),
            forall|j: int|
                0 <= j < max ==> ({
                    let l = (#[trigger] final(self).ledger.spec_get(
                        account_id(CONTROLLER_DOMAIN, j as u32),
                    )).unwrap();
                    &&& l.stash == account_id(STASH_DOMAIN, j as u32)
                    &&& l.active == old(self).minimum_balance * 10
                }),
            forall|j: int|
                0 <= j < max ==> (#[trigger] final(self).validators.spec_get(
                    account_id(STASH_DOMAIN, j as u32),
                )).unwrap() == (ValidatorPrefs { commission: Perbill { parts: 500_000_000 } }),
            *final(self) == (Staking {
                bonded: final(self).bonded,
                ledger: final(self).ledger,
                payee: final(self).payee,
                validators: final(self).validators,
                nominators: final(self).nominators,
                free_balance: final(self).free_balance,
                ..*old(self)
            }),
    {
        let mut out: Vec<u64> = Vec::new();
        let mut i: u32 = 0;
        while i < max
            invariant
                self.wf(),
                i <= max,
                self.minimum_balance == old(self).minimum_balance,
                self.minimum_balance <= u64::MAX / 100,
                out@.len() == i,
                forall|j: int|
                    0 <= j < i ==> #[trigger] out@[j] == account_id(STASH_DOMAIN, j as u32),
                self.validators.spec_len() == i,
                self.nominators.spec_len() == 0,
                forall|s: u64|
                    #[trigger] self.bonded.contains_key(s) <==> exists|j: int|
                        0 <= j < i && s == #[trigger] account_id(STASH_DOMAIN, j as u32),
                forall|s: u64|
                    #[trigger] self.ledger.contains_key(s) <==> exists|j: int|
                        0 <= j < i && s == #[trigger] account_id(CONTROLLER_DOMAIN, j as u32),
                forall|s: u64|
                    #[trigger] self.validators.contains_key(s) <==> exists|j: int|
                        0 <= j < i && s == #[trigger] account_id(STASH_DOMAIN, j as u32),
                forall|s: u64| !self.nominators.contains_key(s),
                forall|j: int|
                    0 <= j < i ==> ({
                        let l = (#[trigger] self.ledger.spec_get(
                            account_id(CONTROLLER_DOMAIN, j as u32),
                        )).unwrap();
                        &&& l.stash == account_id(STASH_DOMAIN, j as u32)
                        &&& l.active == old(self).minimum_balance * 10
                    }),
                forall|j: int|
                    0 <= j < i ==> (#[trigger] self.validators.spec_get(
                        account_id(STASH_DOMAIN, j as u32),
                    )).unwrap() == (ValidatorPrefs { commission: Perbill { parts: 500_000_000 } }),
                *self == (Staking {
                    bonded: self.bonded,
                    ledger: self.ledger,
                    payee: self.payee,
                    validators: self.validators,
                    nominators: self.nominators,
                    free_balance: self.free_balance,
                    ..*old(self)
                }),
            decreases max - i,
        {
            proof {
                if self.bonded.contains_key(account_id(STASH_DOMAIN, i)) {
                    let j = choose|j: int|
                        0 <= j < i && account_id(STASH_DOMAIN, i) == #[trigger] account_id(
                            STASH_DOMAIN,
                            j as u32,
                        );
                    lemma_account_id_injective(STASH_DOMAIN, i, STASH_DOMAIN, j as u32);
                }
                if self.ledger.contains_key(account_id(CONTROLLER_DOMAIN, i)) {
                    let j = choose|j: int|
                        0 <= j < i && account_id(CONTROLLER_DOMAIN, i) == #[trigger] account_id(
                            CONTROLLER_DOMAIN,
                            j as u32,
                        );
                    lemma_account_id_injective(CONTROLLER_DOMAIN, i, CONTROLLER_DOMAIN, j as u32);
                }
            }
            let pair = self.create_stash_controller(i);
            let (stash, controller) = match pair {
                Ok(p) => p,
                Err(e) => {
                    proof {
                        assert(false);
                    }
                    return Err(e);
                },
            };
            let ghost mid = *self;
            let prefs = ValidatorPrefs { commission: Perbill::from_percent(50) };
            let vres = self.validate(controller, prefs);
            proof {
                assert(vres is Ok);
                assert(mid.ledger.spec_get(controller).unwrap().stash == stash);
                if mid.validators.contains_key(stash) {
                    let j = choose|j: int|
                        0 <= j < i && account_id(STASH_DOMAIN, i) == #[trigger] account_id(
                            STASH_DOMAIN,
                            j as u32,
                        );
                    lemma_account_id_injective(STASH_DOMAIN, i, STASH_DOMAIN, j as u32);
                }
                assert forall|s: u64| #[trigger]
                    self.bonded.contains_key(s) <==> exists|j: int|
                        0 <= j < i + 1 && s == #[trigger] account_id(STASH_DOMAIN, j as u32) by {
                    if self.bonded.contains_key(s) {
                        if s == account_id(STASH_DOMAIN, i) {
                            assert(s == account_id(STASH_DOMAIN, i as int as u32));
                        }
                    } else {
                        if exists|j: int| 0 <= j < i + 1 && s == #[trigger] account_id(
                            STASH_DOMAIN,
                            j as u32,
                        ) {
                            let j = choose|j: int|
                                0 <= j < i + 1 && s == #[trigger] account_id(
                                    STASH_DOMAIN,
                                    j as u32,
                                );
                        }
                    }
                }
                assert forall|s: u64| #[trigger]
                    self.ledger.contains_key(s) <==> exists|j: int|
                        0 <= j < i + 1 && s == #[trigger] account_id(CONTROLLER_DOMAIN, j as u32) by {
                    if self.ledger.contains_key(s) {
                        if s == account_id(CONTROLLER_DOMAIN, i) {
                            assert(s == account_id(CONTROLLER_DOMAIN, i as int as u32));
                        }
                    } else {
                        if exists|j: int| 0 <= j < i + 1 && s == #[trigger] account_id(
                            CONTROLLER_DOMAIN,
                            j as u32,
                        ) {
                            let j = choose|j: int|
                                0 <= j < i + 1 && s == #[trigger] account_id(
                                    CONTROLLER_DOMAIN,
                                    j as u32,
                                );
                        }
                    }
                }
                assert forall|s: u64| #[trigger]
                    self.validators.contains_key(s) <==> exists|j: int|
                        0 <= j < i + 1 && s == #[trigger] account_id(STASH_DOMAIN, j as u32) by {
                    if self.validators.contains_key(s) {
                        if s == account_id(STASH_DOMAIN, i) {
                            assert(s == account_id(STASH_DOMAIN, i as int as u32));
                        }
                    } else {
                        if exists|j: int| 0 <= j < i + 1 && s == #[trigger] account_id(
                            STASH_DOMAIN,
                            j as u32,
                        ) {
                            let j = choose|j: int|
                                0 <= j < i + 1 && s == #[trigger] account_id(
                                    STASH_DOMAIN,
                                    j as u32,
                                );
                        }
                    }
                }
                assert forall|j: int| 0 <= j < i + 1 implies ({
                    let l = (#[trigger] self.ledger.spec_get(
                        account_id(CONTROLLER_DOMAIN, j as u32),
                    )).unwrap();
                    &&& l.stash == account_id(STASH_DOMAIN, j as u32)
                    &&& l.active == old(self).minimum_balance * 10
                }) by {
                    if j < i {
                        lemma_account_id_injective(
                            CONTROLLER_DOMAIN,
                            i,
                            CONTROLLER_DOMAIN,
                            j as u32,
                        );
                    }
                }
                assert forall|j: int| 0 <= j < i + 1 implies (#[trigger] self.validators.spec_get(
                    account_id(STASH_DOMAIN, j as u32),
                )).unwrap() == (ValidatorPrefs {
                    commission: Perbill { parts: 500_000_000 },
                }) by {
                    if j < i {
                        lemma_account_id_injective(STASH_DOMAIN, i, STASH_DOMAIN, j as u32);
                    }
                }
            }
            out.push(stash);
            i += 1;
        }
        Ok(out)
    }

    /// Create `v` validators and `n` nominators, each nominator backing up
    /// to `MAX_NOMINATIONS` validators drawn without repetition from a
    /// deterministically seeded generator, and set the validator count: a
    /// full synthetic population for exercising the election.
    pub fn create_validators_with_nominators_for_era(&mut self, v: u32, n: u32) -> (r: Result<
        (),
        Error,
    >)
        requires
            old(self).wf(),
            old(self).minimum_balance <= u64::MAX / 100,
            old(self).min_nominator_bond <= old(self).minimum_balance * 10,
            1 <= v,
            v as int + n as int <= u32::MAX as int,
            forall|s: u64| !old(self).bonded.contains_key(s),
            forall|s: u64| !old(self).ledger.contains_key(s),
            forall|s: u64|
                !old(self).validators.contains_key(s) && !old(self).nominators.contains_key(s),
            old(self).validators.spec_len() == 0,
            old(self).nominators.spec_len() == 0,
        ensures
            final(self).wf(),
            r == Ok::<(), Error>(()),
            final(self).validators.spec_len() == v,
            final(self).nominators.spec_len() == n,
            final(self).validator_count == v,
            forall|j: int|
                0 <= j < v ==> (#[trigger] final(self).validators.spec_get(
                    account_id(STASH_DOMAIN, j as u32),
                )).unwrap() == (ValidatorPrefs { commission: Perbill { parts: 500_000_000 } }),
            forall|j: int|
                0 <= j < v ==> (#[trigger] final(self).ledger.spec_get(
                    account_id(CONTROLLER_DOMAIN, j as u32),
                )).unwrap().active == old(self).minimum_balance * 10,
            forall|k: int|
                0 <= k < n ==> (#[trigger] final(self).ledger.spec_get(
                    account_id(CONTROLLER_DOMAIN, (u32::MAX - k) as u32),
                )).unwrap().active == old(self).minimum_balance * 10,
            forall|k: int|
                0 <= k < n ==> ({
                    let nm = (#[trigger] final(self).nominators.spec_get(
                        account_id(STASH_DOMAIN, (u32::MAX - k) as u32),
                    )).unwrap();
                    &&& final(self).nominators.contains_key(
                        account_id(STASH_DOMAIN, (u32::MAX - k) as u32),
                    )
                    &&& nm.targets@.len() == (if (v as int) <= MAX_NOMINATIONS as int {
                        v as int
                    } else {
                        MAX_NOMINATIONS as int
                    })
                    &&& nm.targets@.no_duplicates()
                    &&& forall|t: int|
                        0 <= t < nm.targets@.len() ==> fixture_validator_id(
                            #[trigger] nm.targets@[t],
                            v,
                        )
                }),
            *final(self) == (Staking {
                bonded: final(self).bonded,
                ledger: final(self).ledger,
                payee: final(self).payee,
                validators: final(self).validators,
                nominators: final(self).nominators,
                free_balance: final(self).free_balance,
                validator_count: v,
                ..*old(self)
            }),
    {
        let validators = match self.create_validators(v) {
            Ok(x) => x,
            Err(e) => {
                proof {
                    assert(false);
                }
                return Err(e);
            },
        };
        let ghost base = *self;
        let mut rng = chacha_from_seed([0u8; 32]);
        let mut j: u32 = 0;
        while j < n
            invariant
                self.wf(),
                j <= n,
                1 <= v,
                v as int + n as int <= u32::MAX as int,
                self.minimum_balance == old(self).minimum_balance,
                self.minimum_balance <= u64::MAX / 100,
                self.min_nominator_bond <= self.minimum_balance * 10,
                validators@.len() == v,
                forall|k: int|
                    0 <= k < v ==> #[trigger] validators@[k] == account_id(
                        STASH_DOMAIN,
                        k as u32,
                    ),
                self.validators.spec_len() == v,
                self.nominators.spec_len() == j,
                forall|s: u64|
                    #[trigger] self.bonded.contains_key(s) <==> ((exists|k: int|
                        0 <= k < v && s == #[trigger] account_id(STASH_DOMAIN, k as u32))
                        || (exists|k: int|
                        0 <= k < j && s == #[trigger] account_id(
                            STASH_DOMAIN,
                            (u32::MAX - k) as u32,
                        ))),
                forall|s: u64|
                    #[trigger] self.ledger.contains_key(s) <==> ((exists|k: int|
                        0 <= k < v && s == #[trigger] account_id(CONTROLLER_DOMAIN, k as u32))
                        || (exists|k: int|
                        0 <= k < j && s == #[trigger] account_id(
                            CONTROLLER_DOMAIN,
                            (u32::MAX - k) as u32,
                        ))),
                forall|s: u64|
                    #[trigger] self.validators.contains_key(s) <==> exists|k: int|
                        0 <= k < v && s == #[trigger] account_id(STASH_DOMAIN, k as u32),
                forall|s: u64|
                    #[trigger] self.nominators.contains_key(s) <==> exists|k: int|
                        0 <= k < j && s == #[trigger] account_id(
                            STASH_DOMAIN,
                            (u32::MAX - k) as u32,
                        ),
                forall|j2: int|
                    0 <= j2 < v ==> (#[trigger] self.validators.spec_get(
                        account_id(STASH_DOMAIN, j2 as u32),
                    )).unwrap() == (ValidatorPrefs { commission: Perbill { parts: 500_000_000 } }),
                forall|j2: int|
                    0 <= j2 < v ==> (#[trigger] self.ledger.spec_get(
                        account_id(CONTROLLER_DOMAIN, j2 as u32),
                    )).unwrap().active == old(self).minimum_balance * 10,
                forall|k: int|
                    0 <= k < j ==> (#[trigger] self.ledger.spec_get(
                        account_id(CONTROLLER_DOMAIN, (u32::MAX - k) as u32),
                    )).unwrap().active == old(self).minimum_balance * 10,
                forall|k: int|
                    0 <= k < j ==> ({
                        let nm = (#[trigger] self.nominators.spec_get(
                            account_id(STASH_DOMAIN, (u32::MAX - k) as u32),
                        )).unwrap();
                        &&& nm.targets@.len() == (if (v as int) <= MAX_NOMINATIONS as int {
                            v as int
                        } else {
                            MAX_NOMINATIONS as int
                        })
                        &&& nm.targets@.no_duplicates()
                        &&& forall|t: int|
                            0 <= t < nm.targets@.len() ==> fixture_validator_id(
                                #[trigger] nm.targets@[t],
                                v,
                            )
                    }),
                *self == (Staking {
                    bonded: self.bonded,
                    ledger: self.ledger,
                    payee: self.payee,
                    validators: self.validators,
                    nominators: self.nominators,
                    free_balance: self.free_balance,
                    ..base
                }),
            decreases n - j,
        {
            let ghost c0 = *self;
            let idx = u32::MAX - j;
            proof {
                if self.bonded.contains_key(account_id(STASH_DOMAIN, idx)) {
                    if exists|k: int|
                        0 <= k < v && account_id(STASH_DOMAIN, idx) == #[trigger] account_id(
                            STASH_DOMAIN,
                            k as u32,
                        ) {
                        let k = choose|k: int|
                            0 <= k < v && account_id(STASH_DOMAIN, idx) == #[trigger] account_id(
                                STASH_DOMAIN,
                                k as u32,
                            );
                        lemma_account_id_injective(STASH_DOMAIN, idx, STASH_DOMAIN, k as u32);
                    } else {
                        let k = choose|k: int|
                            0 <= k < j && account_id(STASH_DOMAIN, idx) == #[trigger] account_id(
                                STASH_DOMAIN,
                                (u32::MAX - k) as u32,
                            );
                        lemma_account_id_injective(
                            STASH_DOMAIN,
                            idx,
                            STASH_DOMAIN,
                            (u32::MAX - k) as u32,
                        );
                    }
                }
                if self.ledger.contains_key(account_id(CONTROLLER_DOMAIN, idx)) {
                    if exists|k: int|
                        0 <= k < v && account_id(CONTROLLER_DOMAIN, idx) == #[trigger] account_id(
                            CONTROLLER_DOMAIN,
                            k as u32,
                        ) {
                        let k = choose|k: int|
                            0 <= k < v && account_id(CONTROLLER_DOMAIN, idx)
                                == #[trigger] account_id(CONTROLLER_DOMAIN, k as u32);
                        lemma_account_id_injective(
                            CONTROLLER_DOMAIN,
                            idx,
                            CONTROLLER_DOMAIN,
                            k as u32,
                        );
                    } else {
                        let k = choose|k: int|
                            0 <= k < j && account_id(CONTROLLER_DOMAIN, idx)
                                == #[trigger] account_id(
                                CONTROLLER_DOMAIN,
                                (u32::MAX - k) as u32,
                            );
                        lemma_account_id_injective(
                            CONTROLLER_DOMAIN,
                            idx,
                            CONTROLLER_DOMAIN,
                            (u32::MAX - k) as u32,
                        );
                    }
                }
            }
            let pair = self.create_stash_controller(idx);
            let (n_stash, n_controller) = match pair {
                Ok(p) => p,
                Err(e) => {
                    proof {
                        assert(false);
                    }
                    return Err(e);
                },
            };
            let ghost mid = *self;
            // draw distinct targets for this nominator
            let mut available = copy_vec_u64(&validators);
            let mut selected: Vec<u64> = Vec::new();
            let draws: usize = if (v as usize) < MAX_NOMINATIONS {
                v as usize
            } else {
                MAX_NOMINATIONS
            };
            let mut d: usize = 0;
            proof {
                assert forall|p: int, q: int| 0 <= p < q < available@.len() implies available@[p]
                    != available@[q] by {
                    lemma_account_id_injective(STASH_DOMAIN, p as u32, STASH_DOMAIN, q as u32);
                }
                assert forall|q: int|
                    0 <= q < available@.len() implies fixture_validator_id(
                    #[trigger] available@[q],
                    v,
                ) by {
                    assert(available@[q] == account_id(STASH_DOMAIN, q as u32));
                }
            }
            while d < draws
                invariant
                    d <= draws,
                    1 <= draws <= v,
                    draws <= MAX_NOMINATIONS,
                    available@.len() == v - d,
                    selected@.len() == d,
                    forall|p: int, q: int|
                        0 <= p < q < available@.len() ==> available@[p] != available@[q],
                    forall|p: int, q: int|
                        0 <= p < q < selected@.len() ==> selected@[p] != selected@[q],
                    forall|p: int, q: int|
                        0 <= p < selected@.len() && 0 <= q < available@.len() ==> selected@[p]
                            != available@[q],
                    forall|q: int|
                        0 <= q < available@.len() ==> fixture_validator_id(
                            #[trigger] available@[q],
                            v,
                        ),
                    forall|p: int|
                        0 <= p < selected@.len() ==> fixture_validator_id(
                            #[trigger] selected@[p],
                            v,
                        ),
                decreases draws - d,
            {
                let word = chacha_next_u32(&mut rng);
                let pick = (word as usize) % available.len();
                let ghost av0 = available@;
                let val = available.remove(pick);
                proof {
                    assert forall|p: int, q: int|
                        0 <= p < q < available@.len() implies available@[p] != available@[q] by {
                        let sp = if p < pick as int {
                            p
                        } else {
                            p + 1
                        };
                        let sq = if q < pick as int {
                            q
                        } else {
                            q + 1
                        };
                        assert(available@[p] == av0[sp] && available@[q] == av0[sq]);
                    }
                    assert forall|q: int| 0 <= q < available@.len() implies val != available@[q] by {
                        let sq = if q < pick as int {
                            q
                        } else {
                            q + 1
                        };
                        assert(available@[q] == av0[sq]);
                    }
                    assert forall|q: int|
                        0 <= q < available@.len() implies fixture_validator_id(
                        #[trigger] available@[q],
                        v,
                    ) by {
                        let sq = if q < pick as int {
                            q
                        } else {
                            q + 1
                        };
                        assert(available@[q] == av0[sq]);
                        assert(fixture_validator_id(av0[sq], v));
                    }
                    assert(fixture_validator_id(val, v)) by {
                        assert(val == av0[pick as int]);
                        assert(fixture_validator_id(av0[pick as int], v));
                    }
                }
                let ghost sel0 = selected@;
                selected.push(val);
                d += 1;
            }
            let nres = self.nominate(n_controller, selected);
            proof {
                assert(nres is Ok);
                assert forall|s: u64| #[trigger]
                    self.bonded.contains_key(s) <==> ((exists|k: int|
                        0 <= k < v && s == #[trigger] account_id(STASH_DOMAIN, k as u32)) || (
                    exists|k: int|
                        0 <= k < j + 1 && s == #[trigger] account_id(
                            STASH_DOMAIN,
                            (u32::MAX - k) as u32,
                        ))) by {
                    if self.bonded.contains_key(s) {
                        if s == account_id(STASH_DOMAIN, idx) {
                            assert(s == account_id(STASH_DOMAIN, (u32::MAX - j as int) as u32));
                        }
                    } else {
                        if exists|k: int|
                            0 <= k < j + 1 && s == #[trigger] account_id(
                                STASH_DOMAIN,
                                (u32::MAX - k) as u32,
                            ) {
                            let k = choose|k: int|
                                0 <= k < j + 1 && s == #[trigger] account_id(
                                    STASH_DOMAIN,
                                    (u32::MAX - k) as u32,
                                );
                        }
                    }
                }
                assert forall|s: u64| #[trigger]
                    self.ledger.contains_key(s) <==> ((exists|k: int|
                        0 <= k < v && s == #[trigger] account_id(CONTROLLER_DOMAIN, k as u32))
                        || (exists|k: int|
                        0 <= k < j + 1 && s == #[trigger] account_id(
                            CONTROLLER_DOMAIN,
                            (u32::MAX - k) as u32,
                        ))) by {
                    if self.ledger.contains_key(s) {
                        if s == account_id(CONTROLLER_DOMAIN, idx) {
                            assert(s == account_id(
                                CONTROLLER_DOMAIN,
                                (u32::MAX - j as int) as u32,
                            ));
                        }
                    } else {
                        if exists|k: int|
                            0 <= k < j + 1 && s == #[trigger] account_id(
                                CONTROLLER_DOMAIN,
                                (u32::MAX - k) as u32,
                            ) {
                            let k = choose|k: int|
                                0 <= k < j + 1 && s == #[trigger] account_id(
                                    CONTROLLER_DOMAIN,
                                    (u32::MAX - k) as u32,
                                );
                        }
                    }
                }
                // the new nominator is no validator, so that registry is kept
                if exists|k: int|
                    0 <= k < v && account_id(STASH_DOMAIN, idx) == #[trigger] account_id(
                        STASH_DOMAIN,
                        k as u32,
                    ) {
                    let k = choose|k: int|
                        0 <= k < v && account_id(STASH_DOMAIN, idx) == #[trigger] account_id(
                            STASH_DOMAIN,
                            k as u32,
                        );
                    lemma_account_id_injective(STASH_DOMAIN, idx, STASH_DOMAIN, k as u32);
                }
                assert forall|s: u64| #[trigger]
                    self.validators.contains_key(s) <==> exists|k: int|
                        0 <= k < v && s == #[trigger] account_id(STASH_DOMAIN, k as u32) by {
                    if !self.validators.contains_key(s) {
                        if exists|k: int|
                            0 <= k < v && s == #[trigger] account_id(STASH_DOMAIN, k as u32) {
                            assert(mid.validators.contains_key(s));
                            assert(s != account_id(STASH_DOMAIN, idx));
                        }
                    }
                }
                assert forall|s: u64| #[trigger]
                    self.nominators.contains_key(s) <==> exists|k: int|
                        0 <= k < j + 1 && s == #[trigger] account_id(
                            STASH_DOMAIN,
                            (u32::MAX - k) as u32,
                        ) by {
                    if self.nominators.contains_key(s) {
                        if s == account_id(STASH_DOMAIN, idx) {
                            assert(s == account_id(STASH_DOMAIN, (u32::MAX - j as int) as u32));
                        }
                    } else {
                        if exists|k: int|
                            0 <= k < j + 1 && s == #[trigger] account_id(
                                STASH_DOMAIN,
                                (u32::MAX - k) as u32,
                            ) {
                            let k = choose|k: int|
                                0 <= k < j + 1 && s == #[trigger] account_id(
                                    STASH_DOMAIN,
                                    (u32::MAX - k) as u32,
                                );
                        }
                    }
                }
                assert forall|j2: int|
                    0 <= j2 < v implies (#[trigger] self.validators.spec_get(
                    account_id(STASH_DOMAIN, j2 as u32),
                )).unwrap() == (ValidatorPrefs {
                    commission: Perbill { parts: 500_000_000 },
                }) by {
                    lemma_account_id_injective(STASH_DOMAIN, idx, STASH_DOMAIN, j2 as u32);
                }
                assert forall|j2: int|
                    0 <= j2 < v implies (#[trigger] self.ledger.spec_get(
                    account_id(CONTROLLER_DOMAIN, j2 as u32),
                )).unwrap().active == old(self).minimum_balance * 10 by {
                    lemma_account_id_injective(CONTROLLER_DOMAIN, idx, CONTROLLER_DOMAIN, j2 as u32);
                }
                assert forall|k: int|
                    0 <= k < j + 1 implies (#[trigger] self.ledger.spec_get(
                    account_id(CONTROLLER_DOMAIN, (u32::MAX - k) as u32),
                )).unwrap().active == old(self).minimum_balance * 10 by {
                    if k < j {
                        lemma_account_id_injective(
                            CONTROLLER_DOMAIN,
                            idx,
                            CONTROLLER_DOMAIN,
                            (u32::MAX - k) as u32,
                        );
                    }
                }
                assert forall|k: int| 0 <= k < j + 1 implies ({
                    let nm = (#[trigger] self.nominators.spec_get(
                        account_id(STASH_DOMAIN, (u32::MAX - k) as u32),
                    )).unwrap();
                    &&& nm.targets@.len() == (if (v as int) <= MAX_NOMINATIONS as int {
                        v as int
                    } else {
                        MAX_NOMINATIONS as int
                    })
                    &&& nm.targets@.no_duplicates()
                    &&& forall|t: int|
                        0 <= t < nm.targets@.len() ==> fixture_validator_id(
                            #[trigger] nm.targets@[t],
                            v,
                        )
                }) by {
                    if k < j {
                        lemma_account_id_injective(
                            STASH_DOMAIN,
                            idx,
                            STASH_DOMAIN,
                            (u32::MAX - k) as u32,
                        );
                        assert((u32::MAX - k) as u32 != idx);
                        assert(account_id(STASH_DOMAIN, (u32::MAX - k) as u32) != account_id(
                            STASH_DOMAIN,
                            idx,
                        ));
                        assert(n_stash == account_id(STASH_DOMAIN, idx));
                        assert(mid.ledger.spec_get(n_controller).unwrap().stash == n_stash);
                        assert(mid.nominators == c0.nominators);
                        assert(self.validators.spec_get(
                            account_id(STASH_DOMAIN, (u32::MAX - k) as u32),
                        ) == self.validators.spec_get(
                            account_id(STASH_DOMAIN, (u32::MAX - k) as u32),
                        ));
                        assert(self.nominators.spec_get(
                            account_id(STASH_DOMAIN, (u32::MAX - k) as u32),
                        ) == c0.nominators.spec_get(
                            account_id(STASH_DOMAIN, (u32::MAX - k) as u32),
                        ));
                    } else {
                        assert(account_id(STASH_DOMAIN, (u32::MAX - k) as u32) == account_id(
                            STASH_DOMAIN,
                            idx,
                        ));
                        let nm = self.nominators.spec_get(account_id(STASH_DOMAIN, idx)).unwrap();
                        assert(nm.targets@ == selected@);
                        assert forall|p2: int, q2: int|
                            0 <= p2 < q2 < nm.targets@.len() implies nm.targets@[p2]
                            != nm.targets@[q2] by {
                            assert(nm.targets@[p2] == selected@[p2]);
                            assert(nm.targets@[q2] == selected@[q2]);
                        }
                        assert(nm.targets@.no_duplicates()) by {
                            assert forall|p2: int, q2: int|
                                0 <= p2 < nm.targets@.len() && 0 <= q2 < nm.targets@.len() && p2
                                != q2 implies nm.targets@[p2] != nm.targets@[q2] by {
                                if p2 < q2 {
                                    assert(selected@[p2] != selected@[q2]);
                                } else {
                                    assert(selected@[q2] != selected@[p2]);
                                }
                            }
                        }
                        assert forall|t: int|
                            0 <= t < nm.targets@.len() implies fixture_validator_id(
                            #[trigger] nm.targets@[t],
                            v,
                        ) by {
                            assert(nm.targets@[t] == selected@[t]);
                            assert(fixture_validator_id(selected@[t], v));
                        }
                    }
                }
            }
            j += 1;
        }
        self.set_validator_count(v);
        Ok(())
    }

    /// Create one validator backed by `n` nominators (out of `upper_bound`
    /// funded users), run the first era's election, and record its reward
    /// points and payout pool, ready for a validator payout. Returns the
    /// validator's controller.
    pub fn create_validator_with_nominators(&mut self, n: u32, upper_bound: u32) -> (r: Result<
        u64,
        Error,
    >)
        requires
            old(self).wf(),
            old(self).minimum_balance <= u64::MAX / 1000,
            old(self).min_nominator_bond <= old(self).minimum_balance * 10,
            n <= upper_bound,
            upper_bound < u32::MAX,
            old(self).current_era is None,
            old(self).invulnerables@.len() == 0,
            forall|s: u64| !old(self).bonded.contains_key(s),
            forall|s: u64| !old(self).ledger.contains_key(s),
            forall|s: u64|
                !old(self).validators.contains_key(s) && !old(self).nominators.contains_key(s),
            old(self).validators.spec_len() == 0,
            old(self).nominators.spec_len() == 0,
        ensures
            final(self).wf(),
            r == Ok::<u64, Error>(account_id(CONTROLLER_DOMAIN, 0)),
            final(self).current_era == Some(0u32),
            final(self).eras.contains_key(0),
            final(self).validator_count == 1,
            final(self).minimum_validator_count == 0,
            final(self).eras.spec_get(0).unwrap().reward_points.total == 10,
            final(self).eras.spec_get(0).unwrap().reward_points.individual.spec_get(
                account_id(STASH_DOMAIN, 0),
            ) == Some(10u32),
            final(self).eras.spec_get(0).unwrap().elected@.len() == 1,
            final(self).eras.spec_get(0).unwrap().elected@[0] == account_id(STASH_DOMAIN, 0),
            final(self).eras.spec_get(0).unwrap().validator_reward == old(self).minimum_balance
                * 1000,
    {
        let pair = self.create_stash_controller(0);
        let (v_stash, v_controller) = match pair {
            Ok(p) => p,
            Err(e) => {
                proof {
                    assert(false);
                }
                return Err(e);
            },
        };
        let prefs = ValidatorPrefs { commission: Perbill::from_percent(50) };
        let vres = self.validate(v_controller, prefs);
        proof {
            assert(vres is Ok);
        }
        let ghost base = *self;
        let mut i: u32 = 0;
        while i < upper_bound
            invariant
                self.wf(),
                i <= upper_bound,
                n <= upper_bound,
                upper_bound < u32::MAX,
                self.minimum_balance == old(self).minimum_balance,
                self.minimum_balance <= u64::MAX / 1000,
                self.min_nominator_bond <= self.minimum_balance * 10,
                self.validators.spec_len() == 1,
                forall|s: u64|
                    #[trigger] self.validators.contains_key(s) <==> s == account_id(
                        STASH_DOMAIN,
                        0,
                    ),
                forall|s: u64|
                    #[trigger] self.bonded.contains_key(s) <==> (s == account_id(STASH_DOMAIN, 0)
                        || (exists|k: int|
                        0 <= k < i && s == #[trigger] account_id(
                            STASH_DOMAIN,
                            (u32::MAX - k) as u32,
                        ))),
                forall|s: u64|
                    #[trigger] self.ledger.contains_key(s) <==> (s == account_id(
                        CONTROLLER_DOMAIN,
                        0,
                    ) || (exists|k: int|
                        0 <= k < i && s == #[trigger] account_id(
                            CONTROLLER_DOMAIN,
                            (u32::MAX - k) as u32,
                        ))),
                *self == (Staking {
                    bonded: self.bonded,
                    ledger: self.ledger,
                    payee: self.payee,
                    validators: self.validators,
                    nominators: self.nominators,
                    free_balance: self.free_balance,
                    ..base
                }),
            decreases upper_bound - i,
        {
            let idx = u32::MAX - i;
            proof {
                lemma_account_id_injective(STASH_DOMAIN, idx, STASH_DOMAIN, 0);
                lemma_account_id_injective(CONTROLLER_DOMAIN, idx, CONTROLLER_DOMAIN, 0);
                if exists|k: int|
                    0 <= k < i && account_id(STASH_DOMAIN, idx) == #[trigger] account_id(
                        STASH_DOMAIN,
                        (u32::MAX - k) as u32,
                    ) {
                    let k = choose|k: int|
                        0 <= k < i && account_id(STASH_DOMAIN, idx) == #[trigger] account_id(
                            STASH_DOMAIN,
                            (u32::MAX - k) as u32,
                        );
                    lemma_account_id_injective(
                        STASH_DOMAIN,
                        idx,
                        STASH_DOMAIN,
                        (u32::MAX - k) as u32,
                    );
                }
                if exists|k: int|
                    0 <= k < i && account_id(CONTROLLER_DOMAIN, idx) == #[trigger] account_id(
                        CONTROLLER_DOMAIN,
                        (u32::MAX - k) as u32,
                    ) {
                    let k = choose|k: int|
                        0 <= k < i && account_id(CONTROLLER_DOMAIN, idx) == #[trigger] account_id(
                            CONTROLLER_DOMAIN,
                            (u32::MAX - k) as u32,
                        );
                    lemma_account_id_injective(
                        CONTROLLER_DOMAIN,
                        idx,
                        CONTROLLER_DOMAIN,
                        (u32::MAX - k) as u32,
                    );
                }
            }
            let pair2 = self.create_stash_controller(idx);
            let (n_stash, n_controller) = match pair2 {
                Ok(p) => p,
                Err(e) => {
                    proof {
                        assert(false);
                    }
                    return Err(e);
                },
            };
            if i < n {
                let mut targets: Vec<u64> = Vec::new();
                targets.push(make_account_id(STASH_DOMAIN, 0));
                let nres = self.nominate(n_controller, targets);
                proof {
                    assert(nres is Ok);
                    assert(n_stash != account_id(STASH_DOMAIN, 0));
                    assert forall|s: u64| #[trigger]
                        self.validators.contains_key(s) <==> s == account_id(
                        STASH_DOMAIN,
                        0,
                    ) by {}
                }
            }
            proof {
                assert forall|s: u64| #[trigger]
                    self.bonded.contains_key(s) <==> (s == account_id(STASH_DOMAIN, 0) || (
                    exists|k: int|
                        0 <= k < i + 1 && s == #[trigger] account_id(
                            STASH_DOMAIN,
                            (u32::MAX - k) as u32,
                        ))) by {
                    if self.bonded.contains_key(s) {
                        if s == account_id(STASH_DOMAIN, idx) {
                            assert(s == account_id(STASH_DOMAIN, (u32::MAX - i as int) as u32));
                        }
                    } else {
                        if exists|k: int|
                            0 <= k < i + 1 && s == #[trigger] account_id(
                                STASH_DOMAIN,
                                (u32::MAX - k) as u32,
                            ) {
                            let k = choose|k: int|
                                0 <= k < i + 1 && s == #[trigger] account_id(
                                    STASH_DOMAIN,
                                    (u32::MAX - k) as u32,
                                );
                        }
                    }
                }
                assert forall|s: u64| #[trigger]
                    self.ledger.contains_key(s) <==> (s == account_id(CONTROLLER_DOMAIN, 0) || (
                    exists|k: int|
                        0 <= k < i + 1 && s == #[trigger] account_id(
                            CONTROLLER_DOMAIN,
                            (u32::MAX - k) as u32,
                        ))) by {
                    if self.ledger.contains_key(s) {
                        if s == account_id(CONTROLLER_DOMAIN, idx) {
                            assert(s == account_id(
                                CONTROLLER_DOMAIN,
                                (u32::MAX - i as int) as u32,
                            ));
                        }
                    } else {
                        if exists|k: int|
                            0 <= k < i + 1 && s == #[trigger] account_id(
                                CONTROLLER_DOMAIN,
                                (u32::MAX - k) as u32,
                            ) {
                            let k = choose|k: int|
                                0 <= k < i + 1 && s == #[trigger] account_id(
                                    CONTROLLER_DOMAIN,
                                    (u32::MAX - k) as u32,
                                );
                        }
                    }
                }
            }
            i += 1;
        }
        self.set_validator_count(1);
        self.set_minimum_validator_count(0);
        let era_result = self.new_era(1);
        proof {
            assert(era_result is Ok);
        }
        let mut points: Vec<(u64, u32)> = Vec::new();
        let ghost p0 = points@;
        points.push((make_account_id(STASH_DOMAIN, 0), 10));
        proof {
            crate::types::lemma_sum_points_push(p0, (account_id(STASH_DOMAIN, 0), 10u32));
            assert(crate::types::sum_points(points@) == 10);
        }
        let pres = self.set_era_reward_points(0, points);
        proof {
            assert(pres is Ok);
        }
        let reward = self.minimum_balance * 1000;
        let rres = self.set_era_validator_reward(0, reward);
        proof {
            assert(rres is Ok);
        }
        Ok(v_controller)
    }

    /// Create one nominator backing `v` validators, run the first era's
    /// election, and record its reward points and payout pool, ready for a
    /// nominator payout. Returns the nominator's controller and the
    /// validator stashes.
    pub fn create_nominator_with_validators(&mut self, v: u32) -> (r: Result<
        (u64, Vec<u64>),
        Error,
    >)
        requires
            old(self).wf(),
            old(self).minimum_balance <= u64::MAX / 1000,
            old(self).min_nominator_bond <= old(self).minimum_balance * 10,
            old(self).current_era is None,
            old(self).invulnerables@.len() == 0,
            old(self).unapplied_slashes.spec_len() == 0,
            forall|s: u64| !old(self).bonded.contains_key(s),
            forall|s: u64| !old(self).ledger.contains_key(s),
            forall|s: u64|
                !old(self).validators.contains_key(s) && !old(self).nominators.contains_key(s),
            old(self).validators.spec_len() == 0,
            old(self).nominators.spec_len() == 0,
        ensures
            final(self).wf(),
            v == 0 ==> r == Err::<(u64, Vec<u64>), Error>(Error::EmptyTargets),
            (v as int) > MAX_NOMINATIONS as int ==> r == Err::<(u64, Vec<u64>), Error>(
                Error::TooManyTargets,
            ),
            (1 <= v && (v as int) <= MAX_NOMINATIONS as int) ==> r is Ok,
            r is Ok ==> ({
                &&& r.unwrap().0 == account_id(CONTROLLER_DOMAIN, u32::MAX)
                &&& r.unwrap().1@.len() == v
                &&& forall|j: int|
                    0 <= j < v ==> #[trigger] r.unwrap().1@[j] == account_id(
                        STASH_DOMAIN,
                        j as u32,
                    )
                &&& final(self).current_era == Some(0u32)
                &&& final(self).eras.contains_key(0)
                &&& final(self).validator_count == v
                &&& final(self).minimum_validator_count == 0
                &&& final(self).eras.spec_get(0).unwrap().reward_points.total == 10 * v
                &&& forall|j: int|
                    0 <= j < v ==> #[trigger] final(self).eras.spec_get(
                        0,
                    ).unwrap().reward_points.individual.spec_get(account_id(
                        STASH_DOMAIN,
                        j as u32,
                    )) == Some(10u32)
                &&& final(self).eras.spec_get(0).unwrap().elected@.len() == v
                &&& final(self).nominators.contains_key(account_id(STASH_DOMAIN, u32::MAX))
                &&& ({
                    let nm = final(self).nominators.spec_get(
                        account_id(STASH_DOMAIN, u32::MAX),
                    ).unwrap();
                    &&& nm.targets@.len() == v
                    &&& forall|j: int|
                        0 <= j < v ==> #[trigger] nm.targets@[j] == account_id(
                            STASH_DOMAIN,
                            j as u32,
                        )
                })
                &&& final(self).eras.spec_get(0).unwrap().validator_reward == old(
                    self,
                ).minimum_balance * 1000
            }),
    {
        let stashes = match self.create_validators(v) {
            Ok(x) => x,
            Err(e) => {
                proof {
                    assert(false);
                }
                return Err(e);
            },
        };
        proof {
            if self.bonded.contains_key(account_id(STASH_DOMAIN, u32::MAX)) {
                let k = choose|k: int|
                    0 <= k < v && account_id(STASH_DOMAIN, u32::MAX) == #[trigger] account_id(
                        STASH_DOMAIN,
                        k as u32,
                    );
                lemma_account_id_injective(STASH_DOMAIN, u32::MAX, STASH_DOMAIN, k as u32);
            }
            if self.ledger.contains_key(account_id(CONTROLLER_DOMAIN, u32::MAX)) {
                let k = choose|k: int|
                    0 <= k < v && account_id(CONTROLLER_DOMAIN, u32::MAX) == #[trigger] account_id(
                        CONTROLLER_DOMAIN,
                        k as u32,
                    );
                lemma_account_id_injective(CONTROLLER_DOMAIN, u32::MAX, CONTROLLER_DOMAIN, k as u32);
            }
        }
        let pair = self.create_stash_controller(u32::MAX);
        let (n_stash, n_controller) = match pair {
            Ok(p) => p,
            Err(e) => {
                proof {
                    assert(false);
                }
                return Err(e);
            },
        };
        let targets = copy_vec_u64(&stashes);
        proof {
            assert forall|p: int, q: int| 0 <= p < q < targets@.len() implies targets@[p]
                != targets@[q] by {
                lemma_account_id_injective(STASH_DOMAIN, p as u32, STASH_DOMAIN, q as u32);
            }
            if self.validators.contains_key(n_stash) {
                let k = choose|k: int|
                    0 <= k < v && n_stash == #[trigger] account_id(STASH_DOMAIN, k as u32);
                lemma_account_id_injective(STASH_DOMAIN, u32::MAX, STASH_DOMAIN, k as u32);
            }
        }
        let nres = self.nominate(n_controller, targets);
        match nres {
            Ok(_) => {},
            Err(e) => {
                return Err(e);
            },
        }
        self.set_validator_count(v);
        self.set_minimum_validator_count(0);
        let era_result = self.new_era(1);
        proof {
            assert(era_result is Ok);
        }
        let mut points: Vec<(u64, u32)> = Vec::new();
        let mut pj: u32 = 0;
        while pj < v
            invariant
                pj <= v,
                v <= MAX_NOMINATIONS,
                points@.len() == pj,
                forall|p: int|
                    0 <= p < pj ==> #[trigger] points@[p] == ((account_id(
                        STASH_DOMAIN,
                        p as u32,
                    ), 10u32)),
                crate::types::sum_points(points@) == 10 * pj,
            decreases v - pj,
        {
            let ghost p0 = points@;
            points.push((make_account_id(STASH_DOMAIN, pj), 10));
            proof {
                crate::types::lemma_sum_points_push(p0, (account_id(STASH_DOMAIN, pj), 10u32));
            }
            pj += 1;
        }
        proof {
            assert forall|p: int, q: int| 0 <= p < q < points@.len() implies (
            #[trigger] points@[p]).0 != (#[trigger] points@[q]).0 by {
                lemma_account_id_injective(STASH_DOMAIN, p as u32, STASH_DOMAIN, q as u32);
            }
        }
        let pres = self.set_era_reward_points(0, points);
        proof {
            assert(pres is Ok);
        }
        let reward = self.minimum_balance * 1000;
        let rres = self.set_era_validator_reward(0, reward);
        proof {
            assert(rres is Ok);
            assert forall|j: int|
                0 <= j < v implies #[trigger] self.eras.spec_get(
                0,
            ).unwrap().reward_points.individual.spec_get(account_id(STASH_DOMAIN, j as u32))
                == Some(10u32) by {
                assert(points@[j] == ((account_id(STASH_DOMAIN, j as u32), 10u32)));
            }
        }
        Ok((n_controller, stashes))
    }
}

} // verus!
