use staking::kton;
use staking::module::{Config, Module};
use staking::perbill::Perbill;
use staking::registry::{RewardDestination, ValidatorPrefs};
use staking::module::Event;
use staking::slashing::OfflineReport;

fn config(grace: u32) -> Config {
    Config {
        sessions_per_era: 3,
        bonding_duration: 2,
        eras_per_epoch: 2,
        validator_count: 2,
        minimum_validator_count: 1,
        offline_slash: Perbill::from_millionths(1000),
        offline_slash_grace: grace,
        invulnerables: vec![],
        current_era: 0,
        current_session_reward: 0,
        current_era_total_reward: 0,
        equalize: false,
    }
}

/// The validator 1 with 1000 at stake, backed by the nominators 2 with 500
/// and 3 with 250. The controller of a stash is the stash plus ten.
fn setup(grace: u32, threshold: u32) -> (Module, kton::Module) {
    let mut currency = kton::Module::new(0);
    let mut m = Module::new(config(grace));
    for (stash, amount) in [(1u64, 1000u64), (2, 500), (3, 250)] {
        currency.deposit_creating(stash, amount);
        m.bond(stash, stash + 10, amount, RewardDestination::Stash, &mut currency).unwrap();
    }
    m.validate(
        11,
        ValidatorPrefs { unstake_threshold: threshold, validator_payment: 0, name: vec![] },
    )
    .unwrap();
    m.nominate(12, vec![1]).unwrap();
    m.nominate(13, vec![1]).unwrap();
    m.select_validators();
    assert_eq!(m.slashable_balance(1), 1750);
    (m, currency)
}

#[test]
fn slash_is_taken_from_the_validator_first() {
    let (m, mut c) = setup(0, 3);
    assert_eq!(m.slash_validator(1, 400, &mut c), 400);
    assert_eq!(c.free_balance(1), 600);
    assert_eq!(c.free_balance(2), 500);
    assert_eq!(c.free_balance(3), 250);
}

#[test]
fn slash_beyond_the_own_stake_reaches_the_backers() {
    let (m, mut c) = setup(0, 3);
    // 300 are left for the backers: 2 has 500 of 750, 3 has 250 of 750.
    assert_eq!(m.slash_validator(1, 1300, &mut c), 1000 + 199 + 99);
    assert_eq!(c.free_balance(1), 0);
    assert_eq!(c.free_balance(2), 500 - 199);
    assert_eq!(c.free_balance(3), 250 - 99);
}

#[test]
fn slash_is_capped_by_the_exposure() {
    let (m, mut c) = setup(0, 3);
    assert_eq!(m.slash_validator(1, 1_000_000, &mut c), 1000 + 499 + 249);
    let (m, mut c) = setup(0, 3);
    assert_eq!(m.slash_validator(9, 100, &mut c), 0);
    assert_eq!(m.slash_validator(1, 0, &mut c), 0);
}

#[test]
fn slash_of_an_underfunded_validator_falls_on_the_backers() {
    let (m, mut c) = setup(0, 3);
    c.make_free_balance_be(1, 100);
    // 100 from the validator; 300 are left: 199 and 99 from the backers.
    assert_eq!(m.slash_validator(1, 400, &mut c), 100 + 199 + 99);
    assert_eq!(c.free_balance(1), 0);
}

#[test]
fn slash_takes_what_an_underfunded_backer_has() {
    let (m, mut c) = setup(0, 3);
    c.make_free_balance_be(2, 50);
    assert_eq!(m.slash_validator(1, 1300, &mut c), 1000 + 50 + 99);
    assert_eq!(c.free_balance(2), 0);
}

#[test]
fn slash_never_exceeds_the_request() {
    for slash in [0u64, 1, 2, 999, 1000, 1001, 1003, 1749, 1750, 1751, u64::MAX] {
        let (m, mut c) = setup(0, 3);
        let before = c.free_balance(1) + c.free_balance(2) + c.free_balance(3);
        let taken = m.slash_validator(1, slash, &mut c);
        assert!(taken <= slash);
        assert!(taken <= 1750);
        assert_eq!(before - taken, c.free_balance(1) + c.free_balance(2) + c.free_balance(3));
        if slash <= 1000 {
            assert_eq!(taken, slash);
        }
    }
}

#[test]
fn offline_escalation() {
    let (mut m, mut c) = setup(2, 3);
    for n in 0..5 {
        let report = m.on_offline_validator(11, 1, &mut c);
        assert_eq!(
            report,
            Some(OfflineReport { event: Event::OfflineWarning(1, n), penalty: 0 })
        );
        assert_eq!(m.slash_count(1), n + 1);
        assert!(m.validators(1).is_some());
        assert_eq!(c.free_balance(1), 1000);
    }
    // The rate is a thousandth of 1750, rounded down; times two to the third.
    let report = m.on_offline_validator(11, 1, &mut c);
    assert_eq!(report, Some(OfflineReport { event: Event::OfflineSlash(1, 8), penalty: 8 }));
    assert_eq!(m.slash_count(1), 6);
    assert_eq!(m.validators(1), None);
    assert_eq!(c.free_balance(1), 992);
    assert_eq!(c.free_balance(2), 500);
    assert_eq!(m.recently_offline().len(), 6);
}

#[test]
fn offline_reports_count_their_instances() {
    let (mut m, mut c) = setup(2, 3);
    let report = m.on_offline_validator(11, 5, &mut c).unwrap();
    assert_eq!(report.event, Event::OfflineWarning(1, 0));
    let report = m.on_offline_validator(11, 1, &mut c).unwrap();
    assert_eq!(report.event, Event::OfflineSlash(1, 8));
    assert_eq!(m.recently_offline(), vec![(1, 0, 5), (1, 0, 1)]);
}

#[test]
fn offline_slash_is_capped_by_the_exposure() {
    let mut currency = kton::Module::new(0);
    let mut cfg = config(0);
    cfg.offline_slash = Perbill::from_parts(500_000_000);
    let mut m = Module::new(cfg);
    for (stash, amount) in [(1u64, 1000u64), (2, 500)] {
        currency.deposit_creating(stash, amount);
        m.bond(stash, stash + 10, amount, RewardDestination::Stash, &mut currency).unwrap();
    }
    m.validate(11, ValidatorPrefs { unstake_threshold: 1, validator_payment: 0, name: vec![] })
        .unwrap();
    m.nominate(12, vec![1]).unwrap();
    m.select_validators();
    m.on_offline_validator(11, 1, &mut currency);
    let report = m.on_offline_validator(11, 1, &mut currency).unwrap();
    assert_eq!(report.event, Event::OfflineSlash(1, 1500));
    assert_eq!(report.penalty, 1500);
    assert_eq!(currency.free_balance(1), 0);
    assert_eq!(currency.free_balance(2), 0);
}

#[test]
fn offline_report_of_an_unknown_controller_does_nothing() {
    let (mut m, mut c) = setup(0, 0);
    assert_eq!(m.on_offline_validator(99, 1, &mut c), None);
    assert_eq!(m.on_offline_validator(1, 1, &mut c), None);
    assert!(m.recently_offline().is_empty());
}

#[test]
fn invulnerables_are_not_slashed() {
    let (mut m, mut c) = setup(0, 0);
    m.set_invulnerables(vec![5, 1]);
    assert_eq!(m.on_offline_validator(11, 1, &mut c), None);
    assert_eq!(m.slash_count(1), 0);
    assert!(m.validators(1).is_some());
    m.set_invulnerables(vec![5]);
    let report = m.on_offline_validator(11, 1, &mut c).unwrap();
    assert_eq!(report.event, Event::OfflineSlash(1, 1));
}

#[test]
fn recent_reports_evict_the_oldest() {
    let (mut m, mut c) = setup(1000, 0);
    for block in 0..32u64 {
        c.set_block_number(100 + block);
        m.on_offline_validator(11, 1, &mut c);
    }
    assert_eq!(m.recently_offline().len(), 32);
    assert_eq!(m.recently_offline()[0], (1, 100, 1));
    c.set_block_number(500);
    m.on_offline_validator(11, 7, &mut c);
    assert_eq!(m.recently_offline().len(), 32);
    assert_eq!(m.recently_offline()[0], (1, 500, 7));
    assert_eq!(m.recently_offline()[1], (1, 101, 1));
    c.set_block_number(50);
    m.on_offline_validator(11, 2, &mut c);
    assert_eq!(m.recently_offline()[1], (1, 50, 2));
    m.on_offline_validator(11, 3, &mut c);
    assert_eq!(m.recently_offline()[1], (1, 50, 3));
}

#[test]
fn slash_counts_decay_with_each_era() {
    let (mut m, mut c) = setup(1000, 0);
    m.on_offline_validator(11, 3, &mut c);
    assert_eq!(m.slash_count(1), 3);
    m.select_validators();
    assert_eq!(m.slash_count(1), 2);
    m.select_validators();
    assert_eq!(m.slash_count(1), 1);
    m.select_validators();
    assert_eq!(m.slash_count(1), 1);
    assert_eq!(m.slash_count(2), 0);
}
