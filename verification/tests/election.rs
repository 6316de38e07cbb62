use staking::equalize::equalize;
use staking::exposure::{Exposure, IndividualExposure};
use staking::kton;
use staking::module::{Config, Module};
use staking::perbill::Perbill;
use staking::phragmen::{elect, split_stake, Assignment, Nomination, Stake, Tally, ACCURACY};
use staking::registry::{RewardDestination, ValidatorPrefs};
use staking::store::StorageMap;

fn stake(who: u64, stake: u64) -> Stake {
    Stake { who, stake }
}

fn nomination(who: u64, stake: u64, targets: &[u64]) -> Nomination {
    Nomination { who, stake, targets: targets.to_vec() }
}

fn config(validator_count: u32, minimum_validator_count: u32, equalize: bool) -> Config {
    Config {
        sessions_per_era: 3,
        bonding_duration: 2,
        eras_per_epoch: 4,
        validator_count,
        minimum_validator_count,
        offline_slash: Perbill::from_millionths(1000),
        offline_slash_grace: 0,
        invulnerables: vec![],
        current_era: 0,
        current_session_reward: 0,
        current_era_total_reward: 0,
        equalize,
    }
}

/// Validators 1, 2 and 3 with 100, 200 and 300 at stake, and the nominator 4
/// with 150 behind 1 and 2. The controller of a stash is the stash plus ten.
fn three_validators_one_nominator(equalize: bool) -> (Module, kton::Module) {
    let mut currency = kton::Module::new(0);
    let mut m = Module::new(config(2, 1, equalize));
    for (stash, amount) in [(1u64, 100u64), (2, 200), (3, 300), (4, 150)] {
        currency.deposit_creating(stash, amount);
        m.bond(stash, stash + 10, amount, RewardDestination::Stash, &mut currency).unwrap();
    }
    for stash in [1u64, 2, 3] {
        m.validate(stash + 10, ValidatorPrefs::default()).unwrap();
    }
    m.nominate(14, vec![1, 2]).unwrap();
    (m, currency)
}

#[test]
fn backed_validators_win_and_their_backing_is_equalized() {
    let (mut m, _) = three_validators_one_nominator(true);
    let (slot_stake, validators) = m.select_validators();
    let mut elected = m.current_elected();
    elected.sort();
    assert_eq!(elected, vec![1, 2]);
    assert_eq!(validators, Some(vec![12, 11]));
    let one = m.stakers(1);
    let two = m.stakers(2);
    assert_eq!(one.own, 100);
    assert_eq!(two.own, 200);
    assert_eq!(one.others, vec![IndividualExposure { who: 4, value: 125 }]);
    assert_eq!(two.others, vec![IndividualExposure { who: 4, value: 25 }]);
    assert_eq!(one.total, 225);
    assert_eq!(two.total, 225);
    assert_eq!(slot_stake, 225);
    assert_eq!(m.slot_stake(), 225);
    assert_eq!(m.stakers(3), Exposure::default());
    assert_eq!(m.slashable_balance(3), 0);
}

#[test]
fn stake_is_split_evenly_without_equalization() {
    let (mut m, _) = three_validators_one_nominator(false);
    let (slot_stake, validators) = m.select_validators();
    assert_eq!(m.current_elected(), vec![2, 1]);
    assert_eq!(validators, Some(vec![12, 11]));
    let one = m.stakers(1);
    let two = m.stakers(2);
    assert_eq!(one.others, vec![IndividualExposure { who: 4, value: 75 }]);
    assert_eq!(two.others, vec![IndividualExposure { who: 4, value: 75 }]);
    assert_eq!((one.total, two.total), (175, 275));
    assert_eq!(slot_stake, 175);
}

#[test]
fn election_is_deterministic() {
    let validators = vec![stake(1, 100), stake(2, 200), stake(3, 300), stake(5, 50)];
    let nominations = vec![
        nomination(4, 150, &[1, 2]),
        nomination(6, 70, &[3, 5, 1]),
        nomination(7, 30, &[5]),
    ];
    let first = elect(3, 1, &validators, &nominations);
    let second = elect(3, 1, &validators, &nominations);
    assert!(first.is_some());
    assert_eq!(first, second);
}

#[test]
fn elect_returns_winners_in_order_and_ratios() {
    let validators = vec![stake(1, 100), stake(2, 200), stake(3, 300)];
    let nominations = vec![nomination(4, 150, &[1, 2])];
    let (stashes, assignments) = elect(2, 1, &validators, &nominations).unwrap();
    assert_eq!(stashes, vec![2, 1]);
    assert_eq!(
        assignments,
        vec![Assignment { who: 4, shares: vec![(1, ACCURACY / 2), (2, ACCURACY / 2)] }]
    );
}

#[test]
fn elect_takes_no_more_winners_than_backed_candidates() {
    let validators = vec![stake(1, 100), stake(2, 200), stake(3, 300)];
    let nominations = vec![nomination(4, 150, &[1, 2])];
    let (stashes, _) = elect(3, 1, &validators, &nominations).unwrap();
    assert_eq!(stashes, vec![2, 1]);
    let (stashes, _) = elect(1, 1, &validators, &nominations).unwrap();
    assert_eq!(stashes, vec![2]);
}

#[test]
fn elect_fails_below_the_floor() {
    let validators = vec![stake(1, 100), stake(2, 200), stake(3, 300)];
    let nominations = vec![nomination(4, 150, &[1, 2])];
    assert_eq!(elect(2, 3, &validators, &nominations), None);
    assert_eq!(elect(1, 2, &validators, &nominations), None);
    assert_eq!(elect(0, 0, &validators, &nominations), None);
    assert_eq!(elect(2, 0, &validators, &vec![]), None);
    assert_eq!(elect(2, 0, &vec![], &nominations), None);
    assert!(elect(2, 2, &validators, &nominations).is_some());
}

#[test]
fn elect_ignores_stakeless_accounts_and_unknown_targets() {
    let validators = vec![stake(1, 0), stake(2, 200)];
    let nominations = vec![
        nomination(4, 0, &[2]),
        nomination(5, 10, &[1, 9]),
        nomination(6, 10, &[9, 2, 2]),
    ];
    let (stashes, assignments) = elect(2, 1, &validators, &nominations).unwrap();
    assert_eq!(stashes, vec![2]);
    assert_eq!(assignments, vec![Assignment { who: 6, shares: vec![(2, ACCURACY)] }]);
}

#[test]
fn elect_breaks_ties_by_stash() {
    let validators = vec![stake(7, 100), stake(3, 100), stake(5, 100)];
    let nominations = vec![
        nomination(20, 50, &[7]),
        nomination(21, 50, &[3]),
        nomination(22, 50, &[5]),
    ];
    let (stashes, _) = elect(3, 1, &validators, &nominations).unwrap();
    assert_eq!(stashes, vec![3, 5, 7]);
}

#[test]
fn elect_prefers_the_lower_score() {
    let validators = vec![stake(1, 100), stake(2, 100), stake(3, 100)];
    let nominations = vec![
        nomination(20, 10, &[1]),
        nomination(21, 30, &[2]),
        nomination(22, 20, &[3]),
    ];
    let (stashes, _) = elect(2, 1, &validators, &nominations).unwrap();
    assert_eq!(stashes, vec![2, 3]);
}

#[test]
fn tally_runs_round_by_round() {
    let validators = vec![stake(1, 100), stake(2, 200)];
    let nominations = vec![nomination(4, 150, &[1, 2])];
    let mut tally = Tally::new(&validators, &nominations);
    assert_eq!(tally.candidates().len(), 2);
    assert_eq!(tally.voters().len(), 3);
    assert_eq!(tally.edges().len(), 4);
    assert_eq!(tally.candidates()[0].approval_stake, 250);
    assert_eq!(tally.candidates()[1].approval_stake, 350);
    assert!(tally.round());
    assert_eq!(tally.elected(), &vec![1]);
    assert_eq!(tally.candidates()[1].score, u128::MAX / 350);
    assert_eq!(tally.voters()[2].load, u128::MAX / 350);
    assert!(tally.round());
    assert!(!tally.round());
    assert_eq!(tally.elected_stashes(), vec![2, 1]);
    assert_eq!(tally.assignments().len(), 1);
}

#[test]
fn split_stake_adds_up_to_accuracy() {
    let shares = split_stake(&vec![(1, 10 << 40), (2, 30 << 40), (3, 5 << 40)]);
    assert_eq!(shares, vec![(1, 954437177), (2, 2863311531), (3, 477218588)]);
    assert_eq!(shares.iter().map(|s| s.1).sum::<u128>(), ACCURACY);
    let shares = split_stake(&vec![(1, 0), (2, 0), (3, 0)]);
    assert_eq!(shares, vec![(1, 1431655766), (2, 1431655765), (3, 1431655765)]);
    let shares = split_stake(&vec![(9, u128::MAX)]);
    assert_eq!(shares, vec![(9, ACCURACY)]);
}

fn exposure(own: u64, others: &[(u64, u64)]) -> Exposure {
    Exposure {
        total: own + others.iter().map(|o| o.1).sum::<u64>(),
        own,
        others: others.iter().map(|&(who, value)| IndividualExposure { who, value }).collect(),
    }
}

#[test]
fn equalize_moves_stake_to_the_least_backed() {
    let mut exposures: StorageMap<Exposure> = StorageMap::new();
    exposures.insert(1, exposure(100, &[(4, 75)]));
    exposures.insert(2, exposure(200, &[(4, 75)]));
    let assignments = vec![Assignment { who: 4, shares: vec![(1, 1), (2, 1)] }];
    equalize(&mut exposures, &assignments, 0, 1);
    assert_eq!(exposures.get(1), Some(&exposure(100, &[(4, 125)])));
    assert_eq!(exposures.get(2), Some(&exposure(200, &[(4, 25)])));
    equalize(&mut exposures, &assignments, 0, 5);
    assert_eq!(exposures.get(1).unwrap().total, 225);
    assert_eq!(exposures.get(2).unwrap().total, 225);
}

#[test]
fn equalize_gives_no_more_than_the_nominator_has() {
    let mut exposures: StorageMap<Exposure> = StorageMap::new();
    exposures.insert(1, exposure(100, &[(4, 10)]));
    exposures.insert(2, exposure(500, &[(4, 20)]));
    let assignments = vec![Assignment { who: 4, shares: vec![(1, 1), (2, 1)] }];
    equalize(&mut exposures, &assignments, 0, 3);
    assert_eq!(exposures.get(1), Some(&exposure(100, &[(4, 30)])));
    assert_eq!(exposures.get(2), Some(&exposure(500, &[(4, 0)])));
}

#[test]
fn equalize_respects_the_tolerance() {
    let mut exposures: StorageMap<Exposure> = StorageMap::new();
    exposures.insert(1, exposure(100, &[(4, 75)]));
    exposures.insert(2, exposure(200, &[(4, 75)]));
    let assignments = vec![Assignment { who: 4, shares: vec![(1, 1), (2, 1)] }];
    equalize(&mut exposures, &assignments, 100, 2);
    assert_eq!(exposures.get(1).unwrap().total, 175);
    equalize(&mut exposures, &assignments, 99, 1);
    assert_eq!(exposures.get(1).unwrap().total, 225);
}

#[test]
fn equalize_adds_an_entry_where_the_nominator_had_none() {
    let mut exposures: StorageMap<Exposure> = StorageMap::new();
    exposures.insert(1, exposure(100, &[]));
    exposures.insert(2, exposure(200, &[(4, 60)]));
    let assignments = vec![Assignment { who: 4, shares: vec![(1, 1), (2, 1), (3, 1)] }];
    equalize(&mut exposures, &assignments, 0, 1);
    assert_eq!(exposures.get(1), Some(&exposure(100, &[(4, 60)])));
    assert_eq!(exposures.get(2), Some(&exposure(200, &[(4, 0)])));
    assert_eq!(exposures.len(), 2);
}

#[test]
fn exposure_total_is_own_plus_others() {
    let mut currency = kton::Module::new(0);
    let mut m = Module::new(config(3, 1, true));
    for (stash, amount) in [(1u64, 100u64), (2, 200), (3, 300), (4, 150), (5, 77), (6, 1000)] {
        currency.deposit_creating(stash, amount);
        m.bond(stash, stash + 10, amount, RewardDestination::Stash, &mut currency).unwrap();
    }
    for stash in [1u64, 2, 3] {
        m.validate(stash + 10, ValidatorPrefs::default()).unwrap();
    }
    m.nominate(14, vec![1, 2]).unwrap();
    m.nominate(15, vec![3, 1]).unwrap();
    m.nominate(16, vec![2, 3, 1]).unwrap();
    m.select_validators();
    assert_eq!(m.current_elected().len(), 3);
    let mut backed = 0;
    for stash in m.current_elected() {
        let e = m.stakers(stash);
        assert_eq!(e.total, e.own + e.others.iter().map(|o| o.value).sum::<u64>());
        assert_eq!(e.own, m.slashable_balance_of(stash));
        backed += e.others.iter().map(|o| o.value).sum::<u64>();
    }
    assert!(backed <= 150 + 77 + 1000);
    assert!(backed >= 150 + 77 + 1000 - 7);
}

#[test]
fn failed_election_keeps_the_last_set() {
    let (mut m, mut currency) = three_validators_one_nominator(false);
    m.select_validators();
    let elected = m.current_elected();
    let slot = m.slot_stake();
    let one = m.stakers(1);
    m.chill(14).unwrap();
    let mut ring = kton::Module::new(0);
    assert_eq!(m.select_validators(), (slot, None));
    assert_eq!(m.current_elected(), elected);
    assert_eq!(m.stakers(1), one);
    m.force_new_era();
    let outcome = m.on_session_ending(0, None, &mut ring);
    assert_eq!(outcome.validators, None);
    assert_eq!(m.current_era(), 1);
    assert_eq!(m.current_elected(), elected);
    assert_eq!(m.slot_stake(), slot);
    m.unbond(14, 1, &mut currency).unwrap();
}

#[test]
fn exposures_stay_within_an_era() {
    let (mut m, mut currency) = three_validators_one_nominator(true);
    let mut ring = kton::Module::new(0);
    m.select_validators();
    let one = m.stakers(1);
    let two = m.stakers(2);
    currency.deposit_creating(1, 50);
    m.bond_extra(1, 50, &mut currency).unwrap();
    m.unbond(12, 20, &mut currency).unwrap();
    m.reward_validator(1, 100, &mut ring);
    m.slash_validator(2, 10, &mut currency);
    m.on_offline_validator(11, 1, &mut currency);
    m.on_session_ending(0, None, &mut ring);
    m.set_validator_count(1);
    m.chill(14).unwrap();
    assert_eq!(m.stakers(1), one);
    assert_eq!(m.stakers(2), two);
    assert_eq!(m.slot_stake(), 225);
}

/// A sequence of numbers that looks random and is always the same.
fn numbers(mut seed: u64, n: usize) -> Vec<u64> {
    let mut out = Vec::with_capacity(n);
    for _ in 0..n {
        seed = seed.wrapping_mul(6364136223846793005).wrapping_add(1442695040888963407);
        out.push(seed >> 33);
    }
    out
}

#[test]
fn elections_over_many_registries_keep_their_promises() {
    for round in 0..40u64 {
        let r = numbers(round + 1, 400);
        let mut next = r.iter().copied();
        let mut take = move || next.next().unwrap();
        let validator_count = (take() % 6) as usize;
        let minimum = (take() % 3) as usize;
        let validators: Vec<Stake> =
            (0..(take() % 8)).map(|i| stake(i + 1, take() % 4 * (take() % 1000))).collect();
        let nominations: Vec<Nomination> = (0..(take() % 10))
            .map(|i| {
                let targets: Vec<u64> = (0..(take() % 5)).map(|_| take() % 10).collect();
                nomination(100 + i, take() % 3 * (take() % 5000), &targets)
            })
            .collect();
        let eligible = validators
            .iter()
            .filter(|v| {
                v.stake > 0
                    && nominations.iter().any(|n| n.stake > 0 && n.targets.contains(&v.who))
            })
            .count();
        let seats = validator_count.min(eligible);
        let result = elect(validator_count, minimum, &validators, &nominations);
        assert_eq!(result, elect(validator_count, minimum, &validators, &nominations));
        assert_eq!(result.is_none(), seats < minimum || seats < 1);
        if let Some((stashes, assignments)) = result {
            assert_eq!(stashes.len(), seats);
            for (i, s) in stashes.iter().enumerate() {
                assert!(!stashes[..i].contains(s));
                assert!(validators.iter().any(|v| v.who == *s && v.stake > 0));
                assert!(nominations.iter().any(|n| n.stake > 0 && n.targets.contains(s)));
            }
            for a in &assignments {
                let n = nominations.iter().find(|n| n.who == a.who).unwrap();
                assert!(n.stake > 0);
                assert!(!a.shares.is_empty());
                assert_eq!(a.shares.iter().map(|s| s.1).sum::<u128>(), ACCURACY);
                let mut given = 0u64;
                for (i, (candidate, ratio)) in a.shares.iter().enumerate() {
                    assert!(stashes.contains(candidate));
                    assert!(n.targets.contains(candidate));
                    assert!(!a.shares[..i].iter().any(|s| s.0 == *candidate));
                    given += (ratio * n.stake as u128 / ACCURACY) as u64;
                }
                assert!(given <= n.stake);
            }
        }
    }
}
