use vstd::prelude::*;
use crate::store::KvMap;
use crate::types::{
    EraSnapshot, Forcing, Perbill, StakingLedger, Nominations, RewardDestination, UnappliedSlash,
    ValidatorPrefs,
};

verus! {

/// The whole staking core: configuration, the mutable stores, and the
/// era-indexed snapshots. Every operation is an atomic transition on a value
/// of this type; on any validation failure the value is left unchanged.
#[derive(Debug)]
pub struct Staking {
    /// Least amount a bond may hold (the currency's minimum balance).
    pub minimum_balance: u64,
    /// Least active stake required of a nominator.
    pub min_nominator_bond: u64,
    /// Number of validators elected per era.
    pub validator_count: u32,
    /// Fewest candidates an election tolerates.
    pub minimum_validator_count: u32,
    /// Stashes always enumerated as election candidates.
    pub invulnerables: Vec<u64>,
    /// Number of trailing eras whose snapshots stay queryable.
    pub history_depth: u32,
    /// Eras an unbonded amount waits before withdrawal.
    pub bonding_duration: u32,
    /// Eras a computed slash is deferred before application.
    pub slash_defer_duration: u32,
    /// Fraction of a slash routed to the reporters.
    pub slash_reward_fraction: Perbill,
    /// Index of the active era, `None` before the first election.
    pub current_era: Option<u32>,
    /// Mode flag consulted by the external session scheduler.
    pub force_era: Forcing,
    /// Stash -> controller.
    pub bonded: KvMap<u64>,
    /// Controller -> bonded-balance ledger.
    pub ledger: KvMap<StakingLedger>,
    /// Stash -> reward destination.
    pub payee: KvMap<RewardDestination>,
    /// Stash -> validator intent.
    pub validators: KvMap<ValidatorPrefs>,
    /// Stash -> nomination intent.
    pub nominators: KvMap<Nominations>,
    /// Era -> snapshot taken at that era's election.
    pub eras: KvMap<EraSnapshot>,
    /// Era of offence -> slashes awaiting the end of the dispute window.
    pub unapplied_slashes: KvMap<Vec<UnappliedSlash>>,
    /// Account -> free balance (the modelled currency collaborator).
    pub free_balance: KvMap<u64>,
}

/// The exact effect of crediting `amount` to `who`'s free balance: the
/// balance grows by `amount` (stopping at the largest representable value),
/// every other balance and every other part of the state stay as they were.
pub open spec fn deposit_rel(pre: Staking, post: Staking, who: u64, amount: u64) -> bool {
    &&& post.balance_of(who) as int == if pre.balance_of(who) as int + amount as int
        <= u64::MAX as int {
        pre.balance_of(who) as int + amount as int
    } else {
        u64::MAX as int
    }
    &&& forall|w: u64| w != who ==> #[trigger] post.balance_of(w) == pre.balance_of(w)
    &&& post == (Staking { free_balance: post.free_balance, ..pre })
}

impl Staking {
    pub open spec fn maps_wf(self) -> bool {
        &&& self.bonded.wf()
        &&& self.ledger.wf()
        &&& self.payee.wf()
        &&& self.validators.wf()
        &&& self.nominators.wf()
        &&& self.eras.wf()
        &&& self.unapplied_slashes.wf()
        &&& self.free_balance.wf()
    }

    /// Every stored ledger keeps `total = active + sum(unlocking)` with an
    /// unlocking queue ordered by strictly increasing era.
    pub open spec fn ledgers_ok(self) -> bool {
        forall|c: u64|
            self.ledger.contains_key(c) ==> (#[trigger] self.ledger.spec_get(c)).unwrap().wf()
    }

    /// Stash and controller reference each other bijectively.
    pub open spec fn pairing_ok(self) -> bool {
        &&& forall|c: u64|
            self.ledger.contains_key(c) ==> self.bonded.spec_get(
                (#[trigger] self.ledger.spec_get(c)).unwrap().stash,
            ) == Some(c)
        &&& forall|s: u64|
            self.bonded.contains_key(s) ==> {
                let c = (#[trigger] self.bonded.spec_get(s)).unwrap();
                &&& self.ledger.contains_key(c)
                &&& self.ledger.spec_get(c).unwrap().stash == s
            }
    }

    /// At most one of validator or nominator intent exists per stash, and
    /// each stored intent is internally valid.
    pub open spec fn roles_ok(self) -> bool {
        &&& forall|s: u64|
            #[trigger] self.validators.contains_key(s) ==> !self.nominators.contains_key(s)
        &&& forall|s: u64|
            self.validators.contains_key(s) ==> (#[trigger] self.validators.spec_get(
                s,
            )).unwrap().commission.wf()
        &&& forall|s: u64|
            self.nominators.contains_key(s) ==> (#[trigger] self.nominators.spec_get(
                s,
            )).unwrap().wf()
    }

    /// Every stored era snapshot keeps its exposure and points invariants.
    pub open spec fn eras_ok(self) -> bool {
        forall|e: u64|
            self.eras.contains_key(e) ==> (#[trigger] self.eras.spec_get(e)).unwrap().wf()
    }

    pub open spec fn wf(self) -> bool {
        &&& self.maps_wf()
        &&& self.ledgers_ok()
        &&& self.pairing_ok()
        &&& self.roles_ok()
        &&& self.eras_ok()
        &&& self.slash_reward_fraction.wf()
    }

    /// The active era index, taken as zero before the first election.
    pub open spec fn era_now(self) -> u32 {
        if self.current_era is Some {
            self.current_era.unwrap()
        } else {
            0
        }
    }

    /// Free balance of an account, zero when none is recorded.
    pub open spec fn balance_of(self, who: u64) -> u64 {
        if self.free_balance.contains_key(who) {
            self.free_balance.spec_get(who).unwrap()
        } else {
            0
        }
    }

    /// The active era index, zero before the first election.
    pub fn era_index(&self) -> (r: u32)
        ensures
            r == self.era_now(),
    {
        match self.current_era {
            Some(e) => e,
            None => 0,
        }
    }

    /// A fresh core with the given configuration and no participants.
    pub fn new(
        minimum_balance: u64,
        min_nominator_bond: u64,
        validator_count: u32,
        minimum_validator_count: u32,
        history_depth: u32,
        bonding_duration: u32,
        slash_defer_duration: u32,
        slash_reward_fraction: Perbill,
    ) -> (r: Staking)
        requires
            slash_reward_fraction.wf(),
        ensures
            r.wf(),
            r.minimum_balance == minimum_balance,
            r.min_nominator_bond == min_nominator_bond,
            r.validator_count == validator_count,
            r.minimum_validator_count == minimum_validator_count,
            r.history_depth == history_depth,
            r.bonding_duration == bonding_duration,
            r.slash_defer_duration == slash_defer_duration,
            r.slash_reward_fraction == slash_reward_fraction,
            r.current_era is None,
            r.force_era == Forcing::NotForcing,
            r.invulnerables@.len() == 0,
            r.bonded.spec_len() == 0 && r.ledger.spec_len() == 0 && r.payee.spec_len() == 0,
            r.validators.spec_len() == 0 && r.nominators.spec_len() == 0,
            r.eras.spec_len() == 0 && r.unapplied_slashes.spec_len() == 0,
            r.free_balance.spec_len() == 0,
            forall|k: u64| !r.ledger.contains_key(k) && !r.bonded.contains_key(k),
            forall|k: u64| !r.validators.contains_key(k) && !r.nominators.contains_key(k),
            forall|k: u64| !r.eras.contains_key(k) && !r.free_balance.contains_key(k),
    {
        Staking {
            minimum_balance,
            min_nominator_bond,
            validator_count,
            minimum_validator_count,
            invulnerables: Vec::new(),
            history_depth,
            bonding_duration,
            slash_defer_duration,
            slash_reward_fraction,
            current_era: None,
            force_era: Forcing::NotForcing,
            bonded: KvMap::new(),
            ledger: KvMap::new(),
            payee: KvMap::new(),
            validators: KvMap::new(),
            nominators: KvMap::new(),
            eras: KvMap::new(),
            unapplied_slashes: KvMap::new(),
            free_balance: KvMap::new(),
        }
    }

    /// Root-only: set the number of validators elected per era.
    pub fn set_validator_count(&mut self, count: u32)
        requires
            old(self).wf(),
        ensures
            final(self).wf(),
            *final(self) == (Staking { validator_count: count, ..*old(self) }),
    {
        self.validator_count = count;
    }

    /// Root-only: set the fewest candidates an election tolerates.
    pub fn set_minimum_validator_count(&mut self, count: u32)
        requires
            old(self).wf(),
        ensures
            final(self).wf(),
            *final(self) == (Staking { minimum_validator_count: count, ..*old(self) }),
    {
        self.minimum_validator_count = count;
    }

    /// Root-only: tell the scheduler to skip eras from here on.
    pub fn force_no_eras(&mut self)
        requires
            old(self).wf(),
        ensures
            final(self).wf(),
            *final(self) == (Staking { force_era: Forcing::ForceNone, ..*old(self) }),
    {
        self.force_era = Forcing::ForceNone;
    }

    /// Root-only: tell the scheduler to force one new era.
    pub fn force_new_era(&mut self)
        requires
            old(self).wf(),
        ensures
            final(self).wf(),
            *final(self) == (Staking { force_era: Forcing::ForceNew, ..*old(self) }),
    {
        self.force_era = Forcing::ForceNew;
    }

    /// Root-only: tell the scheduler to force a new era at every session.
    pub fn force_new_era_always(&mut self)
        requires
            old(self).wf(),
        ensures
            final(self).wf(),
            *final(self) == (Staking { force_era: Forcing::ForceAlways, ..*old(self) }),
    {
        self.force_era = Forcing::ForceAlways;
    }

    /// Root-only: replace the list of always-enumerated candidates.
    pub fn set_invulnerables(&mut self, invulnerables: Vec<u64>)
        requires
            old(self).wf(),
        ensures
            final(self).wf(),
            *final(self) == (Staking { invulnerables, ..*old(self) }),
    {
        self.invulnerables = invulnerables;
    }

    /// Credit an account's free balance, stopping at the largest
    /// representable value (the modelled currency's deposit).
    pub fn deposit(&mut self, who: u64, amount: u64)
        requires
            old(self).wf(),
        ensures
            final(self).wf(),
            deposit_rel(*old(self), *final(self), who, amount),
            final(self).balance_of(who) as int == if old(self).balance_of(who) as int
                + amount as int <= u64::MAX as int {
                old(self).balance_of(who) as int + amount as int
            } else {
                u64::MAX as int
            },
            forall|w: u64|
                w != who ==> #[trigger] final(self).balance_of(w) == old(self).balance_of(w),
            *final(self) == (Staking { free_balance: final(self).free_balance, ..*old(self) }),
    {
        let b = match self.free_balance.get(who) {
            Some(x) => *x,
            None => 0,
        };
        let nb = crate::types::saturating_add_u64(b, amount);
        self.free_balance.insert(who, nb);
    }

    /// Endow an account with a free balance (the modelled currency's
    /// counterpart of a mint or transfer into the account).
    pub fn set_free_balance(&mut self, who: u64, amount: u64)
        requires
            old(self).wf(),
        ensures
            final(self).wf(),
            final(self).balance_of(who) == amount,
            forall|w: u64| w != who ==> final(self).balance_of(w) == old(self).balance_of(w),
            *final(self) == (Staking { free_balance: final(self).free_balance, ..*old(self) }),
    {
        self.free_balance.insert(who, amount);
    }
}

} // verus!
