use staking::kton;
use staking::kton::{BalanceLock, WithdrawReasons};
use staking::ledger::{StakingLedger, UnlockChunk};
use staking::module::{Config, Error, Module, STAKING_ID};
use staking::perbill::Perbill;
use staking::registry::{RewardDestination, ValidatorPrefs};

fn config() -> Config {
    Config {
        sessions_per_era: 3,
        bonding_duration: 2,
        eras_per_epoch: 4,
        validator_count: 2,
        minimum_validator_count: 1,
        offline_slash: Perbill::from_millionths(1000),
        offline_slash_grace: 0,
        invulnerables: vec![],
        current_era: 0,
        current_session_reward: 0,
        current_era_total_reward: 0,
        equalize: false,
    }
}

fn setup() -> (Module, kton::Module) {
    let mut currency = kton::Module::new(0);
    for who in [1u64, 2, 3, 4, 10, 20] {
        currency.deposit_creating(who, 1000);
    }
    (Module::new(config()), currency)
}

fn staking_lock(amount: u64) -> BalanceLock {
    BalanceLock { id: STAKING_ID, amount, until: u64::MAX, reasons: WithdrawReasons::all() }
}

#[test]
fn staking_id_spells_staking() {
    assert_eq!(&STAKING_ID, b"staking ");
}

#[test]
fn bond_creates_ledger_and_lock() {
    let (mut m, mut c) = setup();
    assert_eq!(m.bond(1, 10, 500, RewardDestination::Controller, &mut c), Ok(()));
    assert_eq!(m.bonded(1), Some(10));
    assert_eq!(m.payee(1), RewardDestination::Controller);
    assert_eq!(
        m.ledger(10),
        Some(StakingLedger { stash: 1, total: 500, active: 500, unlocking: vec![] })
    );
    assert_eq!(c.locks(1), vec![staking_lock(500)]);
    assert_eq!(m.slashable_balance_of(1), 500);
}

#[test]
fn bond_is_capped_by_the_free_balance() {
    let (mut m, mut c) = setup();
    assert_eq!(m.bond(1, 10, 5000, RewardDestination::Stash, &mut c), Ok(()));
    assert_eq!(m.ledger(10).unwrap().total, 1000);
    assert_eq!(m.ledger(10).unwrap().active, 1000);
    assert_eq!(c.locks(1), vec![staking_lock(1000)]);
}

#[test]
fn bond_fails_for_a_bonded_stash() {
    let (mut m, mut c) = setup();
    assert_eq!(m.bond(1, 10, 500, RewardDestination::Stash, &mut c), Ok(()));
    assert_eq!(m.bond(1, 20, 100, RewardDestination::Stash, &mut c), Err(Error::AlreadyBonded));
    assert_eq!(m.bonded(1), Some(10));
    assert_eq!(m.ledger(20), None);
}

#[test]
fn bond_fails_for_a_paired_controller() {
    let (mut m, mut c) = setup();
    assert_eq!(m.bond(1, 10, 500, RewardDestination::Stash, &mut c), Ok(()));
    assert_eq!(m.bond(2, 10, 100, RewardDestination::Stash, &mut c), Err(Error::AlreadyPaired));
    assert_eq!(m.bonded(2), None);
    assert!(c.locks(2).is_empty());
}

#[test]
fn bond_extra_adds_what_is_free() {
    let (mut m, mut c) = setup();
    m.bond(1, 10, 500, RewardDestination::Stash, &mut c).unwrap();
    assert_eq!(m.bond_extra(1, 200, &mut c), Ok(()));
    assert_eq!(m.ledger(10).unwrap().total, 700);
    assert_eq!(m.ledger(10).unwrap().active, 700);
    assert_eq!(c.locks(1), vec![staking_lock(700)]);
    assert_eq!(m.bond_extra(1, 5000, &mut c), Ok(()));
    assert_eq!(m.ledger(10).unwrap().total, 1000);
    assert_eq!(c.locks(1), vec![staking_lock(1000)]);
}

#[test]
fn bond_extra_needs_a_stash() {
    let (mut m, mut c) = setup();
    assert_eq!(m.bond_extra(1, 200, &mut c), Err(Error::NotStash));
}

#[test]
fn bond_extra_does_nothing_when_the_balance_is_below_the_stake() {
    let (mut m, mut c) = setup();
    m.bond(1, 10, 500, RewardDestination::Stash, &mut c).unwrap();
    c.slash(1, 600);
    assert_eq!(c.free_balance(1), 400);
    assert_eq!(m.bond_extra(1, 200, &mut c), Ok(()));
    assert_eq!(m.ledger(10).unwrap().total, 500);
}

#[test]
fn unbond_queues_a_chunk() {
    let (mut m, mut c) = setup();
    m.bond(1, 10, 500, RewardDestination::Stash, &mut c).unwrap();
    assert_eq!(m.unbond(10, 200, &mut c), Ok(()));
    assert_eq!(
        m.ledger(10),
        Some(StakingLedger {
            stash: 1,
            total: 500,
            active: 300,
            unlocking: vec![UnlockChunk { value: 200, era: 2 }],
        })
    );
    assert_eq!(c.locks(1), vec![staking_lock(500)]);
}

#[test]
fn unbond_takes_no_more_than_is_active() {
    let (mut m, mut c) = setup();
    m.bond(1, 10, 500, RewardDestination::Stash, &mut c).unwrap();
    assert_eq!(m.unbond(10, 900, &mut c), Ok(()));
    let l = m.ledger(10).unwrap();
    assert_eq!((l.total, l.active), (500, 0));
    assert_eq!(l.unlocking, vec![UnlockChunk { value: 500, era: 2 }]);
    assert_eq!(m.unbond(10, 1, &mut c), Ok(()));
    assert_eq!(m.ledger(10).unwrap().unlocking.len(), 1);
}

#[test]
fn unbond_of_nothing_changes_nothing() {
    let (mut m, mut c) = setup();
    m.bond(1, 10, 500, RewardDestination::Stash, &mut c).unwrap();
    assert_eq!(m.unbond(10, 0, &mut c), Ok(()));
    assert_eq!(m.ledger(10).unwrap().unlocking.len(), 0);
}

#[test]
fn unbond_folds_dust_into_the_chunk() {
    let mut c = kton::Module::new(50);
    c.deposit_creating(1, 1000);
    let mut m = Module::new(config());
    m.bond(1, 10, 500, RewardDestination::Stash, &mut c).unwrap();
    assert_eq!(m.unbond(10, 460, &mut c), Ok(()));
    let l = m.ledger(10).unwrap();
    assert_eq!((l.total, l.active), (500, 0));
    assert_eq!(l.unlocking, vec![UnlockChunk { value: 500, era: 2 }]);
}

#[test]
fn unbond_keeps_what_is_not_dust() {
    let mut c = kton::Module::new(50);
    c.deposit_creating(1, 1000);
    let mut m = Module::new(config());
    m.bond(1, 10, 500, RewardDestination::Stash, &mut c).unwrap();
    assert_eq!(m.unbond(10, 450, &mut c), Ok(()));
    let l = m.ledger(10).unwrap();
    assert_eq!((l.total, l.active), (500, 50));
    assert_eq!(l.unlocking, vec![UnlockChunk { value: 450, era: 2 }]);
}

#[test]
fn unbond_needs_a_controller() {
    let (mut m, mut c) = setup();
    assert_eq!(m.unbond(10, 1, &mut c), Err(Error::NotController));
}

#[test]
fn unbond_fails_when_the_queue_is_full() {
    let (mut m, mut c) = setup();
    m.bond(1, 10, 500, RewardDestination::Stash, &mut c).unwrap();
    for _ in 0..32 {
        assert_eq!(m.unbond(10, 1, &mut c), Ok(()));
    }
    assert_eq!(m.ledger(10).unwrap().unlocking.len(), 32);
    assert_eq!(m.unbond(10, 1, &mut c), Err(Error::NoMoreChunks));
    assert_eq!(m.unbond(10, 0, &mut c), Err(Error::NoMoreChunks));
    let l = m.ledger(10).unwrap();
    assert_eq!((l.total, l.active), (500, 468));
}

#[test]
fn ledger_total_is_active_plus_unlocking() {
    let (mut m, mut c) = setup();
    m.bond(1, 10, 500, RewardDestination::Stash, &mut c).unwrap();
    m.unbond(10, 100, &mut c).unwrap();
    m.bond_extra(1, 50, &mut c).unwrap();
    m.unbond(10, 30, &mut c).unwrap();
    m.withdraw_unbonded(10, &mut c).unwrap();
    let l = m.ledger(10).unwrap();
    let unlocking: u64 = l.unlocking.iter().map(|c| c.value).sum();
    assert_eq!(l.total, l.active + unlocking);
    assert_eq!(l.total, 550);
    assert_eq!(l.active, 420);
}

#[test]
fn withdraw_unbonded_needs_a_controller() {
    let (mut m, mut c) = setup();
    assert_eq!(m.withdraw_unbonded(10, &mut c), Err(Error::NotController));
}

#[test]
fn withdraw_unbonded_twice_is_a_no_op() {
    let (mut m, mut c) = setup();
    m.bond(1, 10, 500, RewardDestination::Stash, &mut c).unwrap();
    m.unbond(10, 100, &mut c).unwrap();
    m.force_new_era();
    let mut ring = kton::Module::new(0);
    m.on_session_ending(0, None, &mut ring);
    m.force_new_era();
    m.on_session_ending(1, None, &mut ring);
    assert_eq!(m.current_era(), 2);
    m.unbond(10, 50, &mut c).unwrap();
    assert_eq!(m.withdraw_unbonded(10, &mut c), Ok(()));
    let first = m.ledger(10).unwrap();
    let locks = c.locks(1);
    assert_eq!(first.total, 400);
    assert_eq!(first.unlocking, vec![UnlockChunk { value: 50, era: 4 }]);
    assert_eq!(locks, vec![staking_lock(400)]);
    assert_eq!(m.withdraw_unbonded(10, &mut c), Ok(()));
    assert_eq!(m.ledger(10).unwrap(), first);
    assert_eq!(c.locks(1), locks);
}

#[test]
fn lock_enforcement() {
    let (mut m, mut c) = setup();
    c.make_free_balance_be(1, 600);
    m.bond(1, 10, 500, RewardDestination::Stash, &mut c).unwrap();
    assert_eq!(c.transfer(1, 2, 101), Err(kton::Error::LiquidityRestrictions));
    assert_eq!(c.transfer(1, 2, 100), Ok(()));
    assert_eq!(c.free_balance(1), 500);
    assert_eq!(c.transfer(1, 2, 1), Err(kton::Error::LiquidityRestrictions));
    m.unbond(10, 500, &mut c).unwrap();
    assert_eq!(c.transfer(1, 2, 1), Err(kton::Error::LiquidityRestrictions));
    let mut ring = kton::Module::new(0);
    for i in 0..3 {
        m.force_new_era();
        m.on_session_ending(i, None, &mut ring);
    }
    assert_eq!(m.current_era(), 3);
    assert_eq!(c.transfer(1, 2, 1), Err(kton::Error::LiquidityRestrictions));
    m.withdraw_unbonded(10, &mut c).unwrap();
    assert_eq!(m.ledger(10).unwrap().total, 0);
    assert_eq!(c.transfer(1, 2, 1), Ok(()));
    assert_eq!(c.transfer(1, 2, 499), Ok(()));
    assert_eq!(c.free_balance(1), 0);
}

#[test]
fn unlocked_chunks_wait_for_their_era() {
    let (mut m, mut c) = setup();
    m.bond(1, 10, 500, RewardDestination::Stash, &mut c).unwrap();
    m.unbond(10, 100, &mut c).unwrap();
    m.withdraw_unbonded(10, &mut c).unwrap();
    assert_eq!(m.ledger(10).unwrap().total, 500);
    let mut ring = kton::Module::new(0);
    m.force_new_era();
    m.on_session_ending(0, None, &mut ring);
    m.withdraw_unbonded(10, &mut c).unwrap();
    assert_eq!(m.ledger(10).unwrap().total, 500);
    m.force_new_era();
    m.on_session_ending(1, None, &mut ring);
    m.withdraw_unbonded(10, &mut c).unwrap();
    assert_eq!(m.ledger(10).unwrap().total, 400);
}

#[test]
fn validate_and_nominate_exclude_each_other() {
    let (mut m, mut c) = setup();
    m.bond(1, 10, 500, RewardDestination::Stash, &mut c).unwrap();
    let prefs = ValidatorPrefs { unstake_threshold: 5, validator_payment: 7, name: vec![1, 2] };
    assert_eq!(m.validate(10, prefs.clone()), Ok(()));
    assert_eq!(m.validators(1), Some(prefs.clone()));
    assert_eq!(m.validator_payment(1), 7);
    assert_eq!(m.unstake_threshold(1), 5);
    assert_eq!(m.nominate(10, vec![2, 3]), Ok(()));
    assert_eq!(m.validators(1), None);
    assert_eq!(m.nominators(1), vec![2, 3]);
    assert_eq!(m.validate(10, prefs.clone()), Ok(()));
    assert_eq!(m.nominators(1), Vec::<u64>::new());
    assert_eq!(m.validators(1), Some(prefs));
}

#[test]
fn validate_rejects_a_large_threshold() {
    let (mut m, mut c) = setup();
    m.bond(1, 10, 500, RewardDestination::Stash, &mut c).unwrap();
    m.nominate(10, vec![2]).unwrap();
    let prefs = ValidatorPrefs { unstake_threshold: 11, validator_payment: 0, name: vec![] };
    assert_eq!(m.validate(10, prefs), Err(Error::UnstakeThresholdTooLarge));
    assert_eq!(m.validators(1), None);
    assert_eq!(m.nominators(1), vec![2]);
    let prefs = ValidatorPrefs { unstake_threshold: 10, validator_payment: 0, name: vec![] };
    assert_eq!(m.validate(10, prefs), Ok(()));
}

#[test]
fn validate_needs_a_controller() {
    let (mut m, _) = setup();
    assert_eq!(m.validate(10, ValidatorPrefs::default()), Err(Error::NotController));
    assert_eq!(m.nominate(10, vec![1]), Err(Error::NotController));
    assert_eq!(m.chill(10), Err(Error::NotController));
    assert_eq!(m.set_payee(10, RewardDestination::Stash), Err(Error::NotController));
}

#[test]
fn nominate_rejects_empty_targets() {
    let (mut m, mut c) = setup();
    m.bond(1, 10, 500, RewardDestination::Stash, &mut c).unwrap();
    m.validate(10, ValidatorPrefs::default()).unwrap();
    assert_eq!(m.nominate(10, vec![]), Err(Error::EmptyTargets));
    assert!(m.validators(1).is_some());
}

#[test]
fn nominate_keeps_the_first_sixteen() {
    let (mut m, mut c) = setup();
    m.bond(1, 10, 500, RewardDestination::Stash, &mut c).unwrap();
    assert_eq!(m.nominate(10, (100..120).collect()), Ok(()));
    assert_eq!(m.nominators(1), (100..116).collect::<Vec<u64>>());
    assert_eq!(m.nominate(10, (100..116).collect()), Ok(()));
    assert_eq!(m.nominators(1).len(), 16);
}

#[test]
fn chill_removes_both_records() {
    let (mut m, mut c) = setup();
    m.bond(1, 10, 500, RewardDestination::Stash, &mut c).unwrap();
    assert_eq!(m.chill(10), Ok(()));
    m.validate(10, ValidatorPrefs::default()).unwrap();
    assert_eq!(m.chill(10), Ok(()));
    assert_eq!(m.validators(1), None);
    m.nominate(10, vec![2]).unwrap();
    assert_eq!(m.chill(10), Ok(()));
    assert!(m.nominators(1).is_empty());
}

#[test]
fn set_payee_changes_the_destination() {
    let (mut m, mut c) = setup();
    assert_eq!(m.payee(1), RewardDestination::Stash);
    m.bond(1, 10, 500, RewardDestination::Stash, &mut c).unwrap();
    assert_eq!(m.set_payee(10, RewardDestination::Controller), Ok(()));
    assert_eq!(m.payee(1), RewardDestination::Controller);
}

#[test]
fn set_controller_moves_the_ledger() {
    let (mut m, mut c) = setup();
    m.bond(1, 10, 500, RewardDestination::Stash, &mut c).unwrap();
    m.bond(2, 20, 100, RewardDestination::Stash, &mut c).unwrap();
    assert_eq!(m.set_controller(3, 30), Err(Error::NotStash));
    assert_eq!(m.set_controller(1, 20), Err(Error::AlreadyPaired));
    assert_eq!(m.set_controller(1, 10), Err(Error::AlreadyPaired));
    assert_eq!(m.bonded(1), Some(10));
    assert_eq!(m.set_controller(1, 30), Ok(()));
    assert_eq!(m.bonded(1), Some(30));
    assert_eq!(m.ledger(10), None);
    assert_eq!(m.ledger(30).unwrap().stash, 1);
    assert_eq!(m.ledger(30).unwrap().total, 500);
}

#[test]
fn on_free_balance_zero_purges_the_stash() {
    let (mut m, mut c) = setup();
    m.bond(1, 10, 500, RewardDestination::Controller, &mut c).unwrap();
    m.validate(10, ValidatorPrefs::default()).unwrap();
    m.on_offline_validator(10, 1, &mut c);
    assert_eq!(m.slash_count(1), 1);
    m.on_free_balance_zero(1);
    assert_eq!(m.bonded(1), None);
    assert_eq!(m.ledger(10), None);
    assert_eq!(m.payee(1), RewardDestination::Stash);
    assert_eq!(m.slash_count(1), 0);
    assert_eq!(m.validators(1), None);
    m.on_free_balance_zero(2);
}

#[test]
fn setters_set() {
    let (mut m, _) = setup();
    m.set_validator_count(7);
    assert_eq!(m.validator_count(), 7);
    m.set_offline_slash_grace(3);
    assert_eq!(m.offline_slash_grace(), 3);
    m.set_invulnerables(vec![4, 5]);
    assert_eq!(m.invulnerables(), vec![4, 5]);
    assert!(!m.forcing_new_era());
    m.force_new_era();
    assert!(m.forcing_new_era());
    assert_eq!(m.minimum_validator_count(), 1);
    assert_eq!(m.sessions_per_era(), 3);
    assert_eq!(m.eras_per_epoch(), 4);
    assert_eq!(m.bonding_duration(), 2);
}

#[test]
fn defaults() {
    assert_eq!(RewardDestination::default(), RewardDestination::Stash);
    let prefs = ValidatorPrefs::default();
    assert_eq!(prefs.unstake_threshold, 3);
    assert_eq!(prefs.validator_payment, 0);
    assert_eq!(prefs.name, vec![0u8; 8]);
}

#[test]
fn staking_errors_in_words() {
    assert_eq!(Error::AlreadyBonded.message(), "stash already bonded");
    assert_eq!(Error::AlreadyPaired.message(), "controller already paired");
    assert_eq!(Error::NotController.message(), "not a controller");
    assert_eq!(Error::NotStash.message(), "not a stash");
    assert_eq!(Error::EmptyTargets.message(), "targets cannot be empty");
    assert_eq!(Error::UnstakeThresholdTooLarge.message(), "unstake threshold too large");
    assert_eq!(Error::NoMoreChunks.message(), "can not schedule more unlock chunks");
}
