use staking::kton::{
    same_id, BalanceLock, Error, ExistenceRequirement, Module, SignedImbalance, UpdateBalanceOutcome,
    VestingSchedule, WithdrawReason, WithdrawReasons,
};

const ID_A: [u8; 8] = *b"lock_a  ";
const ID_B: [u8; 8] = *b"lock_b  ";

fn funded(accounts: &[(u64, u64)]) -> Module {
    let mut m = Module::new(0);
    for &(who, amount) in accounts {
        m.deposit_creating(who, amount);
    }
    m
}

#[test]
fn locked_at_counts_down_per_block() {
    let v = VestingSchedule { offset: 100, per_block: 10 };
    assert_eq!(v.locked_at(0), 100);
    assert_eq!(v.locked_at(3), 70);
    assert_eq!(v.locked_at(10), 0);
    assert_eq!(v.locked_at(11), 0);
}

#[test]
fn locked_at_is_zero_when_the_product_overflows() {
    let v = VestingSchedule { offset: u64::MAX, per_block: u64::MAX };
    assert_eq!(v.locked_at(2), 0);
    assert_eq!(v.locked_at(1), 0);
    assert_eq!(v.locked_at(0), u64::MAX);
}

#[test]
fn vesting_balance_is_capped_by_free_balance() {
    let mut m = funded(&[(1, 50)]);
    assert_eq!(m.vesting_balance(1), 0);
    m.set_vesting_schedule(1, VestingSchedule { offset: 100, per_block: 10 });
    assert_eq!(m.vesting_balance(1), 50);
    m.set_block_number(7);
    assert_eq!(m.vesting_balance(1), 30);
    m.set_block_number(10);
    assert_eq!(m.vesting_balance(1), 0);
}

#[test]
fn balances_default_to_zero() {
    let m = Module::new(5);
    assert_eq!(m.free_balance(9), 0);
    assert_eq!(m.reserved_balance(9), 0);
    assert_eq!(m.total_balance(9), 0);
    assert_eq!(m.minimum_balance(), 5);
    assert_eq!(m.total_issuance(), 0);
    assert_eq!(m.block_number(), 0);
    assert!(m.locks(9).is_empty());
    assert!(m.can_slash(9, 0));
    assert!(!m.can_slash(9, 1));
}

#[test]
fn transfer_moves_funds() {
    let mut m = funded(&[(1, 100), (2, 5)]);
    assert_eq!(m.transfer(1, 2, 30), Ok(()));
    assert_eq!(m.free_balance(1), 70);
    assert_eq!(m.free_balance(2), 35);
}

#[test]
fn transfer_to_self_changes_nothing() {
    let mut m = funded(&[(1, 100)]);
    assert_eq!(m.transfer(1, 1, 30), Ok(()));
    assert_eq!(m.free_balance(1), 100);
}

#[test]
fn transfer_fails_when_balance_too_low() {
    let mut m = funded(&[(1, 10)]);
    assert_eq!(m.transfer(1, 2, 11), Err(Error::BalanceTooLow));
    assert_eq!(m.free_balance(1), 10);
    assert_eq!(m.free_balance(2), 0);
}

#[test]
fn transfer_fails_when_destination_overflows() {
    let mut m = funded(&[(1, 10), (2, u64::MAX)]);
    assert_eq!(m.transfer(1, 2, 1), Err(Error::DestinationTooHigh));
    assert_eq!(m.free_balance(1), 10);
}

#[test]
fn transfer_respects_vesting() {
    let mut m = funded(&[(1, 100)]);
    m.set_vesting_schedule(1, VestingSchedule { offset: 60, per_block: 10 });
    assert_eq!(m.transfer(1, 2, 41), Err(Error::VestingBalance));
    assert_eq!(m.transfer(1, 2, 40), Ok(()));
    m.set_block_number(6);
    assert_eq!(m.transfer(1, 2, 60), Ok(()));
}

#[test]
fn transfer_respects_locks() {
    let mut m = funded(&[(1, 100)]);
    m.set_lock(ID_A, 1, 80, 10, WithdrawReasons::all());
    assert_eq!(m.transfer(1, 2, 21), Err(Error::LiquidityRestrictions));
    assert_eq!(m.transfer(1, 2, 20), Ok(()));
    m.set_block_number(10);
    assert_eq!(m.transfer(1, 2, 80), Ok(()));
}

#[test]
fn lock_for_other_reasons_does_not_stop_a_transfer() {
    let mut m = funded(&[(1, 100)]);
    let mut reasons = WithdrawReasons::none();
    reasons.fee = true;
    m.set_lock(ID_A, 1, 100, 10, reasons);
    assert_eq!(m.ensure_can_withdraw(1, 50, WithdrawReason::Transfer, 50), Ok(()));
    assert_eq!(
        m.ensure_can_withdraw(1, 50, WithdrawReason::Fee, 50),
        Err(Error::LiquidityRestrictions)
    );
}

#[test]
fn withdraw_reports_each_error() {
    let mut m = Module::new(10);
    m.deposit_creating(1, 100);
    assert_eq!(
        m.withdraw(1, 101, WithdrawReason::Fee, ExistenceRequirement::AllowDeath),
        Err(Error::TooFewFreeFunds)
    );
    assert_eq!(
        m.withdraw(1, 95, WithdrawReason::Fee, ExistenceRequirement::KeepAlive),
        Err(Error::WouldKillAccount)
    );
    m.set_lock(ID_A, 1, 50, 10, WithdrawReasons::all());
    assert_eq!(
        m.withdraw(1, 60, WithdrawReason::Fee, ExistenceRequirement::KeepAlive),
        Err(Error::LiquidityRestrictions)
    );
    assert_eq!(m.free_balance(1), 100);
    assert_eq!(m.withdraw(1, 50, WithdrawReason::Fee, ExistenceRequirement::KeepAlive), Ok(50));
    assert_eq!(m.free_balance(1), 50);
}

#[test]
fn withdraw_allows_death() {
    let mut m = Module::new(10);
    m.deposit_creating(1, 100);
    assert_eq!(m.withdraw(1, 95, WithdrawReason::Fee, ExistenceRequirement::AllowDeath), Ok(95));
    assert_eq!(m.free_balance(1), 5);
}

#[test]
fn slash_takes_what_is_there() {
    let mut m = funded(&[(1, 30)]);
    assert_eq!(m.slash(1, 20), (20, 0));
    assert_eq!(m.free_balance(1), 10);
    assert_eq!(m.slash(1, 25), (10, 15));
    assert_eq!(m.free_balance(1), 0);
    assert_eq!(m.slash(1, 0), (0, 0));
}

#[test]
fn deposit_into_existing_needs_an_account() {
    let mut m = funded(&[(1, 30)]);
    assert_eq!(m.deposit_into_existing(2, 10), Err(Error::BeneficiaryMissing));
    assert_eq!(m.free_balance(2), 0);
    assert_eq!(m.deposit_into_existing(1, 10), Ok(10));
    assert_eq!(m.free_balance(1), 40);
}

#[test]
fn deposits_stop_at_the_largest_balance() {
    let mut m = funded(&[(1, u64::MAX - 5)]);
    assert_eq!(m.deposit_into_existing(1, 10), Ok(5));
    assert_eq!(m.free_balance(1), u64::MAX);
    assert_eq!(m.deposit_creating(1, 10), 0);
}

#[test]
fn make_free_balance_be_reports_the_imbalance() {
    let mut m = funded(&[(1, 30)]);
    assert_eq!(
        m.make_free_balance_be(1, 50),
        (SignedImbalance::Positive(20), UpdateBalanceOutcome::Updated)
    );
    assert_eq!(
        m.make_free_balance_be(1, 10),
        (SignedImbalance::Negative(40), UpdateBalanceOutcome::Updated)
    );
    assert_eq!(m.free_balance(1), 10);
}

#[test]
fn issue_and_burn_clamp() {
    let mut m = Module::new(0);
    assert_eq!(m.issue(100), 100);
    assert_eq!(m.total_issuance(), 100);
    assert_eq!(m.burn(30), 30);
    assert_eq!(m.total_issuance(), 70);
    assert_eq!(m.burn(100), 70);
    assert_eq!(m.total_issuance(), 0);
    assert_eq!(m.issue(u64::MAX - 1), u64::MAX - 1);
    assert_eq!(m.issue(5), 1);
    assert_eq!(m.total_issuance(), u64::MAX);
}

#[test]
fn set_lock_replaces_the_lock_of_that_name() {
    let mut m = funded(&[(1, 100)]);
    m.set_lock(ID_A, 1, 10, 20, WithdrawReasons::all());
    m.set_lock(ID_B, 1, 30, 40, WithdrawReasons::all());
    m.set_lock(ID_A, 1, 5, 6, WithdrawReasons::none());
    assert_eq!(
        m.locks(1),
        vec![
            BalanceLock { id: ID_A, amount: 5, until: 6, reasons: WithdrawReasons::none() },
            BalanceLock { id: ID_B, amount: 30, until: 40, reasons: WithdrawReasons::all() },
        ]
    );
}

#[test]
fn set_lock_drops_expired_locks() {
    let mut m = funded(&[(1, 100)]);
    m.set_lock(ID_A, 1, 10, 20, WithdrawReasons::all());
    m.set_block_number(20);
    m.set_lock(ID_B, 1, 30, 40, WithdrawReasons::all());
    assert_eq!(
        m.locks(1),
        vec![BalanceLock { id: ID_B, amount: 30, until: 40, reasons: WithdrawReasons::all() }]
    );
}

#[test]
fn extend_lock_merges() {
    let mut m = funded(&[(1, 100)]);
    let mut transfer = WithdrawReasons::none();
    transfer.transfer = true;
    let mut fee = WithdrawReasons::none();
    fee.fee = true;
    m.set_lock(ID_A, 1, 10, 50, transfer);
    m.extend_lock(ID_A, 1, 30, 40, fee);
    let mut both = WithdrawReasons::none();
    both.transfer = true;
    both.fee = true;
    assert_eq!(m.locks(1), vec![BalanceLock { id: ID_A, amount: 30, until: 50, reasons: both }]);
    m.extend_lock(ID_B, 1, 1, 2, fee);
    assert_eq!(m.locks(1).len(), 2);
    assert_eq!(m.locks(1)[1], BalanceLock { id: ID_B, amount: 1, until: 2, reasons: fee });
}

#[test]
fn remove_lock_removes_by_name() {
    let mut m = funded(&[(1, 100)]);
    m.set_lock(ID_A, 1, 10, 20, WithdrawReasons::all());
    m.set_lock(ID_B, 1, 30, 40, WithdrawReasons::all());
    m.remove_lock(ID_A, 1);
    assert_eq!(
        m.locks(1),
        vec![BalanceLock { id: ID_B, amount: 30, until: 40, reasons: WithdrawReasons::all() }]
    );
    m.set_block_number(40);
    m.remove_lock(ID_A, 1);
    assert!(m.locks(1).is_empty());
}

#[test]
fn reasons_union_and_contains() {
    let mut a = WithdrawReasons::none();
    a.reserve = true;
    let mut b = WithdrawReasons::none();
    b.transaction_payment = true;
    let u = a.union(b);
    assert!(u.contains(WithdrawReason::Reserve));
    assert!(u.contains(WithdrawReason::TransactionPayment));
    assert!(!u.contains(WithdrawReason::Transfer));
    assert!(!u.contains(WithdrawReason::Fee));
    assert!(WithdrawReasons::all().contains(WithdrawReason::Fee));
}

#[test]
fn ids_compare_by_content() {
    assert!(same_id(&ID_A, &ID_A));
    assert!(!same_id(&ID_A, &ID_B));
}

#[test]
fn currency_errors_in_words() {
    assert_eq!(Error::VestingBalance.message(), "vesting balance too high to send value");
    assert_eq!(
        Error::LiquidityRestrictions.message(),
        "account liquidity restrictions prevent withdrawal"
    );
    assert_eq!(Error::BalanceTooLow.message(), "balance too low to send value");
    assert_eq!(
        Error::DestinationTooHigh.message(),
        "destination balance too high to receive value"
    );
    assert_eq!(Error::WouldKillAccount.message(), "payment would kill account");
    assert_eq!(Error::TooFewFreeFunds.message(), "too few free funds in account");
    assert_eq!(Error::BeneficiaryMissing.message(), "beneficiary account must pre-exist");
}
