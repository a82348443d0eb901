use staking_core::state::Staking;
use staking_core::types::{Error, Perbill, RewardDestination};

fn fresh(minimum_balance: u64) -> Staking {
    Staking::new(
        minimum_balance,
        minimum_balance,
        0,
        0,
        84,
        3,
        2,
        Perbill::from_percent(10),
    )
}

fn balance(s: &Staking, who: u64) -> u64 {
    match s.free_balance.get(who) {
        Some(b) => *b,
        None => 0,
    }
}

#[test]
fn bond_creates_a_ledger_with_active_equal_total() {
    let mut s = fresh(100);
    s.set_free_balance(1, 5000);
    s.bond(1, 2, 1000, RewardDestination::Stash).unwrap();
    let l = s.ledger.get(2).unwrap();
    assert_eq!(l.stash, 1);
    assert_eq!(l.active, 1000);
    assert_eq!(l.total, 1000);
    assert_eq!(l.unlocking.len(), 0);
    assert_eq!(*s.bonded.get(1).unwrap(), 2);
}

#[test]
fn bond_rejects_a_bonded_stash_and_a_small_amount() {
    let mut s = fresh(100);
    s.set_free_balance(1, 5000);
    s.bond(1, 2, 1000, RewardDestination::Stash).unwrap();
    assert_eq!(
        s.bond(1, 3, 1000, RewardDestination::Stash),
        Err(Error::AlreadyBonded)
    );
    s.set_free_balance(4, 5000);
    assert_eq!(
        s.bond(4, 2, 1000, RewardDestination::Stash),
        Err(Error::AlreadyPaired)
    );
    assert_eq!(
        s.bond(4, 5, 99, RewardDestination::Stash),
        Err(Error::InsufficientBond)
    );
}

#[test]
fn unbond_then_rebond_restores_the_ledger() {
    let mut s = fresh(100);
    s.set_free_balance(1, 5000);
    s.bond(1, 2, 1000, RewardDestination::Stash).unwrap();
    s.unbond(2, 400).unwrap();
    {
        let l = s.ledger.get(2).unwrap();
        assert_eq!(l.active, 600);
        assert_eq!(l.total, 1000);
        assert_eq!(l.unlocking.len(), 1);
        assert_eq!(l.unlocking[0].value, 400);
        assert_eq!(l.unlocking[0].era, 3);
    }
    s.rebond(2, 400).unwrap();
    let l = s.ledger.get(2).unwrap();
    assert_eq!(l.active, 1000);
    assert_eq!(l.total, 1000);
    assert_eq!(l.unlocking.len(), 0);
}

#[test]
fn rebond_without_chunks_fails() {
    let mut s = fresh(100);
    s.set_free_balance(1, 5000);
    s.bond(1, 2, 1000, RewardDestination::Stash).unwrap();
    assert_eq!(s.rebond(2, 100), Err(Error::NoUnlockChunk));
    assert_eq!(s.unbond(99, 5), Err(Error::NotController));
}

#[test]
fn withdraw_before_the_bonding_duration_is_a_no_op_and_reaps_afterwards() {
    let mut s = fresh(100);
    s.set_free_balance(1, 5000);
    s.bond(1, 2, 1000, RewardDestination::Stash).unwrap();
    s.unbond(2, 1000).unwrap();

    let reaped = s.withdraw_unbonded(2).unwrap();
    assert!(!reaped);
    {
        let l = s.ledger.get(2).unwrap();
        assert_eq!(l.total, 1000);
        assert_eq!(l.active, 0);
        assert_eq!(l.unlocking.len(), 1);
    }

    s.current_era = Some(3);
    let reaped_now = s.withdraw_unbonded(2).unwrap();
    assert!(reaped_now);
    assert!(s.ledger.get(2).is_none());
    assert!(s.bonded.get(1).is_none());
}

#[test]
fn nominate_enforces_the_target_bound() {
    let mut s = fresh(100);
    s.set_free_balance(1, 5000);
    s.bond(1, 2, 1000, RewardDestination::Stash).unwrap();

    let mut too_many: Vec<u64> = Vec::new();
    for t in 0..17u64 {
        too_many.push(1000 + t);
    }
    assert_eq!(s.nominate(2, too_many), Err(Error::TooManyTargets));

    let mut enough: Vec<u64> = Vec::new();
    for t in 0..16u64 {
        enough.push(1000 + t);
    }
    assert!(s.nominate(2, enough).is_ok());
    assert_eq!(s.nominators.len(), 1);
}

#[test]
fn nominate_rejects_empty_and_duplicate_targets() {
    let mut s = fresh(100);
    s.set_free_balance(1, 5000);
    s.bond(1, 2, 1000, RewardDestination::Stash).unwrap();
    assert_eq!(s.nominate(2, Vec::new()), Err(Error::EmptyTargets));
    let mut dup: Vec<u64> = Vec::new();
    dup.push(7);
    dup.push(7);
    assert_eq!(s.nominate(2, dup), Err(Error::DuplicateTarget));
}

#[test]
fn validate_and_chill_swap_the_intents() {
    let mut s = fresh(100);
    s.set_free_balance(1, 5000);
    s.bond(1, 2, 1000, RewardDestination::Stash).unwrap();
    s.validate(2, staking_core::types::ValidatorPrefs { commission: Perbill::from_percent(5) })
        .unwrap();
    assert_eq!(s.validators.len(), 1);
    let mut targets: Vec<u64> = Vec::new();
    targets.push(42);
    s.nominate(2, targets).unwrap();
    assert_eq!(s.validators.len(), 0);
    assert_eq!(s.nominators.len(), 1);
    s.chill(2).unwrap();
    assert_eq!(s.nominators.len(), 0);
}

#[test]
fn slash_drains_active_stake_then_the_oldest_chunk() {
    let mut s = fresh(10);
    s.set_free_balance(1, 5000);
    s.bond(1, 2, 80, RewardDestination::Stash).unwrap();
    s.unbond(2, 30).unwrap();
    {
        let l = s.ledger.get(2).unwrap();
        assert_eq!(l.active, 50);
        assert_eq!(l.unlocking[0].value, 30);
    }
    let mut reward_payout: u64 = 0;
    let mut slashed: u64 = 0;
    s.do_slash(1, 60, &mut reward_payout, &mut slashed);
    let l = s.ledger.get(2).unwrap();
    assert_eq!(l.active, 0);
    assert_eq!(l.unlocking[0].value, 20);
    assert_eq!(l.total, 20);
    assert_eq!(slashed, 60);
    assert_eq!(reward_payout, 0);
}

#[test]
fn cancelled_deferred_slash_is_never_applied() {
    let mut s = fresh(100);
    s.set_free_balance(1, 5000);
    s.bond(1, 2, 1000, RewardDestination::Stash).unwrap();
    s.validate(2, staking_core::types::ValidatorPrefs { commission: Perbill::from_percent(0) })
        .unwrap();
    s.set_validator_count(1);
    s.new_era(1).unwrap();

    s.record_offence(0, 1, Perbill::from_percent(50), Vec::new())
        .unwrap();
    assert_eq!(s.unapplied_slashes.get(0).unwrap().len(), 1);

    let mut indices: Vec<u32> = Vec::new();
    indices.push(0);
    s.cancel_deferred_slash(0, indices).unwrap();
    assert_eq!(s.unapplied_slashes.get(0).unwrap().len(), 0);

    // let the dispute window elapse: the ledger stays untouched
    s.new_era(2).unwrap();
    s.new_era(3).unwrap();
    let l = s.ledger.get(2).unwrap();
    assert_eq!(l.active, 1000);
    assert_eq!(l.total, 1000);
}

#[test]
fn uncancelled_deferred_slash_is_applied_when_the_window_ends() {
    let mut s = fresh(100);
    s.set_free_balance(1, 5000);
    s.bond(1, 2, 1000, RewardDestination::Stash).unwrap();
    s.validate(2, staking_core::types::ValidatorPrefs { commission: Perbill::from_percent(0) })
        .unwrap();
    s.set_validator_count(1);
    s.new_era(1).unwrap();

    s.record_offence(0, 1, Perbill::from_percent(50), Vec::new())
        .unwrap();
    s.new_era(2).unwrap();
    s.new_era(3).unwrap();
    let l = s.ledger.get(2).unwrap();
    assert_eq!(l.active, 500);
    assert_eq!(l.total, 500);
}

#[test]
fn cancel_deferred_slash_validates_indices_and_window() {
    let mut s = fresh(100);
    s.set_free_balance(1, 5000);
    s.bond(1, 2, 1000, RewardDestination::Stash).unwrap();
    s.validate(2, staking_core::types::ValidatorPrefs { commission: Perbill::from_percent(0) })
        .unwrap();
    s.set_validator_count(1);
    s.new_era(1).unwrap();
    s.record_offence(0, 1, Perbill::from_percent(10), Vec::new())
        .unwrap();

    let mut unsorted: Vec<u32> = Vec::new();
    unsorted.push(1);
    unsorted.push(0);
    assert_eq!(
        s.cancel_deferred_slash(0, unsorted),
        Err(Error::NotSortedAndUnique)
    );

    let mut out_of_range: Vec<u32> = Vec::new();
    out_of_range.push(5);
    assert_eq!(
        s.cancel_deferred_slash(0, out_of_range),
        Err(Error::InvalidSlashIndex)
    );

    s.current_era = Some(7);
    let mut first: Vec<u32> = Vec::new();
    first.push(0);
    assert_eq!(
        s.cancel_deferred_slash(0, first),
        Err(Error::ErrorsAlreadyApplied)
    );
}

#[test]
fn payouts_follow_the_commission_and_stake_split() {
    let mut s = fresh(100);
    // one validator with half commission, one nominator with equal stake
    s.set_free_balance(1, 10_000);
    s.bond(1, 2, 1000, RewardDestination::Stash).unwrap();
    s.validate(2, staking_core::types::ValidatorPrefs { commission: Perbill::from_percent(50) })
        .unwrap();
    s.set_free_balance(3, 10_000);
    s.bond(3, 4, 1000, RewardDestination::Stash).unwrap();
    let mut targets: Vec<u64> = Vec::new();
    targets.push(1);
    s.nominate(4, targets).unwrap();
    s.set_validator_count(1);
    s.new_era(1).unwrap();
    let mut points: Vec<(u64, u32)> = Vec::new();
    points.push((1, 10));
    s.set_era_reward_points(0, points).unwrap();
    s.set_era_validator_reward(0, 1000).unwrap();

    let parts = s.payout_validator(2, 0).unwrap();
    // share 1000, commission cut 500, own part 500 * 1000 / 2000 = 250
    assert_eq!(parts.len(), 2);
    assert_eq!(parts[0], (1, 750));
    assert_eq!(parts[1], (3, 250));
    assert_eq!(balance(&s, 1), 10_000 + 750);
    assert_eq!(balance(&s, 3), 10_000 + 250);
}

#[test]
fn payout_for_an_unknown_era_fails() {
    let mut s = fresh(100);
    s.set_free_balance(1, 5000);
    s.bond(1, 2, 1000, RewardDestination::Stash).unwrap();
    assert_eq!(s.payout_validator(2, 9), Err(Error::InvalidEraToReward));
    assert_eq!(s.payout_validator(99, 0), Err(Error::NotController));
}

#[test]
fn payout_nominator_rejects_a_stranger() {
    let mut s = fresh(100);
    let (_nominator, validators) = s.create_nominator_with_validators(3).unwrap();
    // a bonded account that nominated nobody
    s.set_free_balance(900, 5000);
    s.bond(900, 901, 1000, RewardDestination::Stash).unwrap();
    let mut list: Vec<(u64, u32)> = Vec::new();
    list.push((validators[0], 0));
    assert_eq!(s.payout_nominator(901, 0, list), Err(Error::NotNominated));
}

#[test]
fn set_controller_moves_the_ledger() {
    let mut s = fresh(100);
    s.set_free_balance(1, 5000);
    s.bond(1, 2, 1000, RewardDestination::Stash).unwrap();
    assert_eq!(s.set_controller(9, 5), Err(Error::NotStash));
    s.set_controller(1, 5).unwrap();
    assert!(s.ledger.get(2).is_none());
    assert_eq!(s.ledger.get(5).unwrap().stash, 1);
    assert_eq!(*s.bonded.get(1).unwrap(), 5);
}

#[test]
fn force_unstake_and_reap_purge_a_stash() {
    let mut s = fresh(100);
    s.set_free_balance(1, 5000);
    s.bond(1, 2, 1000, RewardDestination::Stash).unwrap();
    s.force_unstake(1).unwrap();
    assert!(s.ledger.get(2).is_none());

    s.set_free_balance(3, 5000);
    s.bond(3, 4, 1000, RewardDestination::Stash).unwrap();
    assert_eq!(s.reap_stash(3), Err(Error::FundedTarget));
    s.set_free_balance(3, 0);
    s.reap_stash(3).unwrap();
    assert!(s.ledger.get(4).is_none());
    assert_eq!(s.reap_stash(3), Err(Error::NotStash));
}

#[test]
fn history_depth_prunes_old_snapshots() {
    let mut s = fresh(100);
    s.set_free_balance(1, 5000);
    s.bond(1, 2, 1000, RewardDestination::Stash).unwrap();
    s.validate(2, staking_core::types::ValidatorPrefs { commission: Perbill::from_percent(0) })
        .unwrap();
    s.set_validator_count(1);
    for session in 1..6u32 {
        s.new_era(session).unwrap();
    }
    assert_eq!(s.era_index(), 4);
    assert!(s.eras.get(0).is_some());
    s.set_history_depth(1);
    assert!(s.eras.get(0).is_none());
    assert!(s.eras.get(2).is_none());
    assert!(s.eras.get(3).is_some());
    assert!(s.eras.get(4).is_some());
}

#[test]
fn election_needs_enough_candidates() {
    let mut s = fresh(100);
    assert_eq!(s.new_era(1), Err(Error::NotEnoughValidators));
}

#[test]
fn perbill_multiplication_rounds_down() {
    let half = Perbill::from_percent(50);
    assert_eq!(half.mul_floor(101), 50);
    let tenth = Perbill::from_percent(10);
    assert_eq!(tenth.mul_floor(1000), 100);
    assert_eq!(Perbill::from_parts(2_000_000_000).parts, 1_000_000_000);
}

#[test]
fn bond_extra_adds_only_free_funds() {
    let mut s = fresh(100);
    s.set_free_balance(1, 1500);
    s.bond(1, 2, 1000, RewardDestination::Stash).unwrap();
    s.bond_extra(1, 10_000).unwrap();
    let l = s.ledger.get(2).unwrap();
    assert_eq!(l.active, 1500);
    assert_eq!(l.total, 1500);
    assert_eq!(s.bond_extra(9, 5), Err(Error::NotStash));
}

#[test]
fn set_payee_routes_payouts_to_the_controller() {
    let mut s = fresh(100);
    s.set_free_balance(1, 5000);
    s.bond(1, 2, 1000, RewardDestination::Stash).unwrap();
    s.set_payee(2, RewardDestination::Controller).unwrap();
    let controller_before = balance(&s, 2);
    s.make_payout(1, 300);
    assert_eq!(balance(&s, 2), controller_before + 300);
    assert_eq!(s.set_payee(9, RewardDestination::Stash), Err(Error::NotController));
}

#[test]
fn forcing_flags_are_recorded_for_the_scheduler() {
    let mut s = fresh(100);
    s.force_new_era();
    assert_eq!(s.force_era, staking_core::types::Forcing::ForceNew);
    s.force_new_era_always();
    assert_eq!(s.force_era, staking_core::types::Forcing::ForceAlways);
    s.force_no_eras();
    assert_eq!(s.force_era, staking_core::types::Forcing::ForceNone);
}

#[test]
fn invulnerables_are_always_enumerated_as_candidates() {
    let mut s = fresh(100);
    let mut inv: Vec<u64> = Vec::new();
    inv.push(77);
    s.set_invulnerables(inv);
    s.set_validator_count(1);
    let elected = s.new_era(1).unwrap();
    assert_eq!(elected, [77u64].to_vec());
}

#[test]
fn recorded_offence_sizes_the_slash_from_the_exposure() {
    let mut s = fresh(100);
    s.set_free_balance(1, 5000);
    s.bond(1, 2, 1000, RewardDestination::Stash).unwrap();
    s.validate(2, staking_core::types::ValidatorPrefs { commission: Perbill::from_percent(0) })
        .unwrap();
    s.set_free_balance(3, 5000);
    s.bond(3, 4, 1000, RewardDestination::Stash).unwrap();
    let mut targets: Vec<u64> = Vec::new();
    targets.push(1);
    s.nominate(4, targets).unwrap();
    s.set_validator_count(1);
    s.new_era(1).unwrap();

    s.record_offence(0, 1, Perbill::from_percent(30), Vec::new())
        .unwrap();
    let list = s.unapplied_slashes.get(0).unwrap();
    assert_eq!(list.len(), 1);
    assert_eq!(list[0].validator, 1);
    assert_eq!(list[0].own, 300);
    assert_eq!(list[0].others.len(), 1);
    assert_eq!(list[0].others[0], (3, 300));
    // ten percent of the whole slash is set aside for reporters
    assert_eq!(list[0].payout, 60);
}
