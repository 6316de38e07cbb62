use staking::exposure::IndividualExposure;
use staking::kton;
use staking::module::{Config, Event, Module};
use staking::perbill::Perbill;
use staking::registry::{RewardDestination, ValidatorPrefs};

fn config() -> Config {
    Config {
        sessions_per_era: 3,
        bonding_duration: 2,
        eras_per_epoch: 2,
        validator_count: 2,
        minimum_validator_count: 1,
        offline_slash: Perbill::from_millionths(1000),
        offline_slash_grace: 0,
        invulnerables: vec![],
        current_era: 0,
        current_session_reward: 100,
        current_era_total_reward: 5000,
        equalize: false,
    }
}

/// The validator 1 with 1000 at stake, backed by the nominator 2 with 500.
/// The controller of a stash is the stash plus ten.
fn setup(payment: u64) -> (Module, kton::Module, kton::Module) {
    let mut currency = kton::Module::new(0);
    let mut ring = kton::Module::new(0);
    let mut m = Module::new(config());
    for (stash, amount) in [(1u64, 1000u64), (2, 500)] {
        currency.deposit_creating(stash, amount);
        ring.deposit_creating(stash, 1);
        ring.deposit_creating(stash + 10, 1);
        m.bond(stash, stash + 10, amount, RewardDestination::Stash, &mut currency).unwrap();
    }
    m.validate(11, ValidatorPrefs { unstake_threshold: 3, validator_payment: payment, name: vec![] })
        .unwrap();
    m.nominate(12, vec![1]).unwrap();
    m.select_validators();
    (m, currency, ring)
}

#[test]
fn election_exposes_the_nominator() {
    let (m, _, _) = setup(0);
    let e = m.stakers(1);
    assert_eq!((e.total, e.own), (1500, 1000));
    assert_eq!(e.others, vec![IndividualExposure { who: 2, value: 500 }]);
}

#[test]
fn reward_is_shared_pro_rata_after_the_payment() {
    let (m, _, mut ring) = setup(30);
    assert_eq!(m.reward_validator(1, 300, &mut ring), 298);
    assert_eq!(ring.free_balance(2), 1 + 89);
    assert_eq!(ring.free_balance(1), 1 + 179 + 30);
}

#[test]
fn reward_below_the_payment_goes_to_the_validator() {
    let (m, _, mut ring) = setup(30);
    assert_eq!(m.reward_validator(1, 20, &mut ring), 20);
    assert_eq!(ring.free_balance(1), 21);
    assert_eq!(ring.free_balance(2), 1);
    assert_eq!(m.reward_validator(1, 0, &mut ring), 0);
}

#[test]
fn reward_never_exceeds_the_budget() {
    for payment in [0u64, 1, 7, 1000] {
        for reward in [0u64, 1, 2, 3, 10, 299, 300, 301, 1_000_000_007] {
            let (m, _, mut ring) = setup(payment);
            let paid = m.reward_validator(1, reward, &mut ring);
            assert!(paid <= reward);
            assert_eq!(ring.free_balance(1) + ring.free_balance(2), 2 + paid);
        }
    }
}

#[test]
fn reward_goes_where_the_payee_says() {
    let (mut m, _, mut ring) = setup(0);
    m.set_payee(11, RewardDestination::Controller).unwrap();
    m.set_payee(12, RewardDestination::StakedDeprecated).unwrap();
    assert_eq!(m.reward_validator(1, 300, &mut ring), 199);
    assert_eq!(ring.free_balance(11), 200);
    assert_eq!(ring.free_balance(1), 1);
    assert_eq!(ring.free_balance(2), 1);
    assert_eq!(ring.free_balance(12), 1);
}

#[test]
fn payout_needs_an_existing_account() {
    let (m, _, _) = setup(0);
    let mut ring = kton::Module::new(0);
    assert_eq!(m.make_payout(1, 10, &mut ring), None);
    assert_eq!(m.reward_validator(1, 300, &mut ring), 0);
    ring.deposit_creating(1, 5);
    assert_eq!(m.make_payout(1, 10, &mut ring), Some(10));
    assert_eq!(ring.free_balance(1), 15);
}

#[test]
fn reward_of_an_unexposed_validator_goes_nowhere_but_the_payment() {
    let (m, _, mut ring) = setup(0);
    ring.deposit_creating(9, 1);
    assert_eq!(m.reward_validator(9, 100, &mut ring), 0);
    assert_eq!(ring.free_balance(9), 1);
}

#[test]
fn sessions_accrue_and_the_era_pays() {
    let mut currency = kton::Module::new(0);
    let mut ring = kton::Module::new(0);
    let mut m = Module::new(config());
    for (stash, amount) in [(1u64, 1000u64), (2, 500), (3, 400), (4, 100)] {
        currency.deposit_creating(stash, amount);
        ring.deposit_creating(stash, 1);
        m.bond(stash, stash + 10, amount, RewardDestination::Stash, &mut currency).unwrap();
    }
    m.validate(11, ValidatorPrefs::default()).unwrap();
    m.validate(13, ValidatorPrefs::default()).unwrap();
    m.nominate(12, vec![1]).unwrap();
    m.nominate(14, vec![3]).unwrap();

    let outcome = m.on_session_ending(0, Some(7000), &mut ring);
    assert_eq!((outcome.validators, outcome.event, outcome.minted), (None, None, 0));
    assert_eq!(m.current_era_reward(), 100);
    let outcome = m.on_session_ending(1, Some(7000), &mut ring);
    assert_eq!(outcome.validators, None);
    assert_eq!(m.current_era(), 0);
    assert_eq!(m.epoch_index(), 0);

    // The first era ends. Nobody was elected yet, so nothing is paid.
    let outcome = m.on_session_ending(2, Some(7000), &mut ring);
    assert_eq!(outcome.validators, Some(vec![11, 13]));
    assert_eq!((outcome.event, outcome.minted), (None, 0));
    assert_eq!(m.current_era(), 1);
    assert_eq!(m.epoch_index(), 1);
    assert_eq!(m.current_era_total_reward(), 7000);
    assert_eq!(m.current_era_reward(), 300);
    assert_eq!(m.current_elected(), vec![1, 3]);
    assert_eq!(m.slot_stake(), 500);

    m.on_session_ending(3, None, &mut ring);
    m.on_session_ending(4, None, &mut ring);
    assert_eq!(m.current_era_reward(), 500);
    // The second era ends: 600 for two validators.
    let outcome = m.on_session_ending(5, Some(1), &mut ring);
    assert_eq!(outcome.event, Some(Event::Reward(300)));
    assert_eq!(outcome.validators, Some(vec![11, 13]));
    // 1: own 1000 of 1500 gives 199, its backer 2 gets 99; 3: own 400 of 500
    // gives 240, its backer 4 gets 60.
    assert_eq!(ring.free_balance(1), 1 + 199);
    assert_eq!(ring.free_balance(2), 1 + 99);
    assert_eq!(ring.free_balance(3), 1 + 240);
    assert_eq!(ring.free_balance(4), 1 + 60);
    assert_eq!(outcome.minted, 598);
    assert_eq!(m.current_era_reward(), 0);
    assert_eq!(m.current_era(), 2);
    assert_eq!(m.epoch_index(), 1);
    assert_eq!(m.current_era_total_reward(), 7000);

    // The third era is the first of an epoch for which the curve gave no
    // budget.
    m.force_new_era();
    let outcome = m.on_session_ending(6, None, &mut ring);
    assert_eq!(outcome.event, Some(Event::Reward(50)));
    assert!(!m.forcing_new_era());
    assert_eq!(m.current_era(), 3);
    assert_eq!(m.epoch_index(), 2);
    assert_eq!(m.current_era_total_reward(), 7000);
}

#[test]
fn new_epoch_takes_the_budget() {
    let mut m = Module::new(config());
    m.new_epoch(None);
    assert_eq!((m.epoch_index(), m.current_era_total_reward()), (1, 5000));
    m.new_epoch(Some(9));
    assert_eq!((m.epoch_index(), m.current_era_total_reward()), (2, 9));
    assert_eq!(m.current_session_reward(), 100);
}
