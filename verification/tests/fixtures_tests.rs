use staking_core::state::Staking;
use staking_core::types::{Perbill, MAX_NOMINATIONS};

fn fresh(minimum_balance: u64) -> Staking {
    Staking::new(
        minimum_balance,
        minimum_balance,
        0,
        0,
        84,
        3,
        2,
        Perbill::from_percent(10),
    )
}

fn balance(s: &Staking, who: u64) -> u64 {
    match s.free_balance.get(who) {
        Some(b) => *b,
        None => 0,
    }
}

#[test]
fn create_validators_with_nominators_for_era_works() {
    let mut s = fresh(100);
    let v = 10;
    let n = 100;

    s.create_validators_with_nominators_for_era(v, n).unwrap();

    let count_validators = s.validators.len();
    let count_nominators = s.nominators.len();

    assert_eq!(count_validators, v as usize);
    assert_eq!(count_nominators, n as usize);
}

#[test]
fn create_validator_with_nominators_works() {
    let mut s = fresh(100);
    let n = 10;

    let validator = s
        .create_validator_with_nominators(n, MAX_NOMINATIONS as u32)
        .unwrap();

    let current_era = s.era_index();
    let controller = validator;
    let stash = s.ledger.get(controller).unwrap().stash;

    let original_free_balance = balance(&s, stash);
    assert!(s.payout_validator(controller, current_era).is_ok());
    let new_free_balance = balance(&s, stash);

    assert!(original_free_balance < new_free_balance);
}

#[test]
fn create_nominator_with_validators_works() {
    let mut s = fresh(100);
    let v = 5;

    let (nominator, validators) = s.create_nominator_with_validators(v).unwrap();

    let current_era = s.era_index();
    let controller = nominator;
    let stash = s.ledger.get(controller).unwrap().stash;

    let mut find_nominator: Vec<(u64, u32)> = Vec::new();
    for x in validators.iter() {
        find_nominator.push((*x, 0));
    }

    let original_free_balance = balance(&s, stash);
    assert!(s
        .payout_nominator(controller, current_era, find_nominator)
        .is_ok());
    let new_free_balance = balance(&s, stash);

    assert!(original_free_balance < new_free_balance);
}

#[test]
fn election_with_ten_validators_and_hundred_nominators_backs_every_seat() {
    let mut s = fresh(100);
    s.create_validators_with_nominators_for_era(10, 100).unwrap();
    let elected = s.new_era(1).unwrap();
    assert_eq!(elected.len(), 10);

    let snap = s.eras.get(0).unwrap();
    let mut exposure_sum: u128 = 0;
    for v in elected.iter() {
        let exp = snap.stakers.get(*v).unwrap();
        assert!(exp.total > 0);
        exposure_sum += exp.total as u128;
    }
    // every participant bonded ten times the minimum balance
    let participant_stake: u128 = 110 * (100 * 10);
    assert!(exposure_sum >= participant_stake);
}

#[test]
fn repeated_election_for_the_same_session_is_a_no_op() {
    let mut s = fresh(100);
    s.create_validators_with_nominators_for_era(4, 6).unwrap();
    let first = s.new_era(1).unwrap();
    let again = s.new_era(1).unwrap();
    assert_eq!(first, again);
    assert_eq!(s.era_index(), 0);
}

#[test]
fn second_validator_payout_fails_and_leaves_balances_unchanged() {
    let mut s = fresh(100);
    let controller = s.create_validator_with_nominators(4, 8).unwrap();
    let stash = s.ledger.get(controller).unwrap().stash;
    assert!(s.payout_validator(controller, 0).is_ok());
    let before = balance(&s, stash);
    let second = s.payout_validator(controller, 0);
    assert_eq!(second, Err(staking_core::types::Error::AlreadyClaimed));
    assert_eq!(balance(&s, stash), before);
}
