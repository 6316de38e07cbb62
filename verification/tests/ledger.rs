use staking::exposure::{Exposure, IndividualExposure};
use staking::ledger::{StakingLedger, UnlockChunk};

fn ledger(total: u64, active: u64, chunks: &[(u64, u32)]) -> StakingLedger {
    StakingLedger {
        stash: 11,
        total,
        active,
        unlocking: chunks.iter().map(|&(value, era)| UnlockChunk { value, era }).collect(),
    }
}

#[test]
fn consolidate_drops_matured_chunks() {
    let after = ledger(100, 40, &[(10, 1), (20, 3), (30, 2)]).consolidate_unlocked(2);
    assert_eq!(after, ledger(60, 40, &[(20, 3)]));
}

#[test]
fn consolidate_keeps_the_order_of_what_stays() {
    let after = ledger(100, 0, &[(10, 5), (20, 1), (30, 4), (40, 9)]).consolidate_unlocked(3);
    assert_eq!(after, ledger(80, 0, &[(10, 5), (30, 4), (40, 9)]));
}

#[test]
fn consolidate_without_matured_chunks_changes_nothing() {
    let before = ledger(100, 40, &[(10, 5), (50, 6)]);
    assert_eq!(before.clone().consolidate_unlocked(4), before);
    assert_eq!(ledger(7, 7, &[]).consolidate_unlocked(4), ledger(7, 7, &[]));
}

#[test]
fn consolidate_twice_is_consolidate_once() {
    let once = ledger(100, 40, &[(10, 1), (20, 3), (30, 2)]).consolidate_unlocked(2);
    assert_eq!(once.clone().consolidate_unlocked(2), once);
}

#[test]
fn consolidate_holds_the_total_at_zero() {
    let after = ledger(15, 0, &[(10, 1), (20, 1)]).consolidate_unlocked(1);
    assert_eq!(after, ledger(0, 0, &[]));
}

#[test]
fn ledger_duplicate_is_equal() {
    let l = ledger(100, 40, &[(10, 1), (50, 3)]);
    assert_eq!(l.duplicate(), l);
}

fn exposure(own: u64, others: &[(u64, u64)]) -> Exposure {
    Exposure {
        total: own + others.iter().map(|o| o.1).sum::<u64>(),
        own,
        others: others.iter().map(|&(who, value)| IndividualExposure { who, value }).collect(),
    }
}

#[test]
fn exposure_backing_of_finds_the_backer() {
    let e = exposure(10, &[(1, 5), (2, 7), (1, 9)]);
    assert_eq!(e.backing_of(1), 5);
    assert_eq!(e.backing_of(2), 7);
    assert_eq!(e.backing_of(3), 0);
    assert_eq!(Exposure::default().backing_of(1), 0);
    assert_eq!(e.duplicate(), e);
}

#[test]
fn exposure_reduce_and_raise_keep_the_total_in_step() {
    let mut e = exposure(10, &[(1, 5), (2, 7)]);
    e.reduce(2, 3);
    assert_eq!(e, exposure(10, &[(1, 5), (2, 4)]));
    e.raise(1, 6);
    assert_eq!(e, exposure(10, &[(1, 11), (2, 4)]));
    e.raise(3, 2);
    assert_eq!(e, exposure(10, &[(1, 11), (2, 4), (3, 2)]));
    e.reduce(4, 0);
    assert_eq!(e.total, 27);
}
