//! The staked currency: free and reserved balances, vesting, and the named
//! locks that keep funds from being withdrawn.

use vstd::prelude::*;
use crate::primitives::{AccountId, Balance, BlockNumber};
use crate::store::StorageMap;

verus! {

broadcast use vstd::array::group_array_axioms;

/// The name under which a lock is set, extended and removed.
pub type LockIdentifier = [u8; 8];

/// Whether two names are the same.
pub fn same_id(a: &LockIdentifier, b: &LockIdentifier) -> (r: bool)
    ensures
        r == (*a == *b),
{
    let mut i: usize = 0;
    while i < 8
        invariant
            i <= 8,
            forall|j: int| 0 <= j < i ==> a[j] == b[j],
        decreases 8 - i,
    {
        if a[i] != b[i] {
            return false;
        }
        i += 1;
    }
    assert(*a =~= *b);
    true
}

/// Struct to encode the vesting schedule of an individual account.
#[derive(Clone, Copy, PartialEq, Eq, Debug)]
pub struct VestingSchedule {
    /// Locked amount at genesis.
    pub offset: Balance,
    /// Amount that gets unlocked every block from genesis.
    pub per_block: Balance,
}

impl View for VestingSchedule {
    type V = VestingSchedule;

    open spec fn view(&self) -> VestingSchedule {
        *self
    }
}

impl VestingSchedule {
    /// What is still locked at block `n`: the offset less what was unlocked
    /// since genesis, and nothing once that no longer fits the balance type.
    pub open spec fn spec_locked_at(&self, n: BlockNumber) -> Balance {
        if n * self.per_block > u64::MAX || n * self.per_block >= self.offset {
            0
        } else {
            (self.offset - n * self.per_block) as Balance
        }
    }

    /// Amount locked at block `n`.
    pub fn locked_at(&self, n: BlockNumber) -> (r: Balance)
        ensures
            r == self.spec_locked_at(n),
    {
        match n.checked_mul(self.per_block) {
            Some(x) => {
                if self.offset > x {
                    self.offset - x
                } else {
                    0
                }
            },
            None => 0,
        }
    }
}

/// Why funds leave an account.
#[derive(Clone, Copy, PartialEq, Eq, Debug)]
pub enum WithdrawReason {
    /// To pay for a transaction.
    TransactionPayment,
    /// To move them to another account.
    Transfer,
    /// To reserve them.
    Reserve,
    /// To pay a fee.
    Fee,
}

/// A set of reasons for withdrawing funds.
#[derive(Clone, Copy, PartialEq, Eq, Debug)]
pub struct WithdrawReasons {
    pub transaction_payment: bool,
    pub transfer: bool,
    pub reserve: bool,
    pub fee: bool,
}

impl WithdrawReasons {
    /// Whether `reason` is in the set.
    pub open spec fn spec_contains(&self, reason: WithdrawReason) -> bool {
        match reason {
            WithdrawReason::TransactionPayment => self.transaction_payment,
            WithdrawReason::Transfer => self.transfer,
            WithdrawReason::Reserve => self.reserve,
            WithdrawReason::Fee => self.fee,
        }
    }

    /// The reasons of either set.
    pub open spec fn spec_union(&self, other: WithdrawReasons) -> WithdrawReasons {
        WithdrawReasons {
            transaction_payment: self.transaction_payment || other.transaction_payment,
            transfer: self.transfer || other.transfer,
            reserve: self.reserve || other.reserve,
            fee: self.fee || other.fee,
        }
    }

    /// Every reason.
    pub open spec fn spec_all() -> WithdrawReasons {
        WithdrawReasons { transaction_payment: true, transfer: true, reserve: true, fee: true }
    }

    /// Every reason.
    pub fn all() -> (r: WithdrawReasons)
        ensures
            r == WithdrawReasons::spec_all(),
            forall|reason: WithdrawReason| r.spec_contains(reason),
    {
        WithdrawReasons { transaction_payment: true, transfer: true, reserve: true, fee: true }
    }

    /// No reason.
    pub fn none() -> (r: WithdrawReasons)
        ensures
            forall|reason: WithdrawReason| !r.spec_contains(reason),
    {
        WithdrawReasons { transaction_payment: false, transfer: false, reserve: false, fee: false }
    }

    /// Whether `reason` is in the set.
    pub fn contains(&self, reason: WithdrawReason) -> (r: bool)
        ensures
            r == self.spec_contains(reason),
    {
        match reason {
            WithdrawReason::TransactionPayment => self.transaction_payment,
            WithdrawReason::Transfer => self.transfer,
            WithdrawReason::Reserve => self.reserve,
            WithdrawReason::Fee => self.fee,
        }
    }

    /// The reasons of either set.
    pub fn union(&self, other: WithdrawReasons) -> (r: WithdrawReasons)
        ensures
            r == self.spec_union(other),
    {
        WithdrawReasons {
            transaction_payment: self.transaction_payment || other.transaction_payment,
            transfer: self.transfer || other.transfer,
            reserve: self.reserve || other.reserve,
            fee: self.fee || other.fee,
        }
    }
}

/// Whether a withdrawal may empty the account.
#[derive(Clone, Copy, PartialEq, Eq, Debug)]
pub enum ExistenceRequirement {
    /// The account must keep at least the minimum balance.
    KeepAlive,
    /// The account may be left with less.
    AllowDeath,
}

/// What a change of balance did to the account.
#[derive(Clone, Copy, PartialEq, Eq, Debug)]
pub enum UpdateBalanceOutcome {
    /// The balance was set.
    Updated,
    /// The account was removed.
    AccountKilled,
}

/// By how much funds came into being or ceased to be.
#[derive(Clone, Copy, PartialEq, Eq, Debug)]
pub enum SignedImbalance {
    /// Funds were created.
    Positive(Balance),
    /// Funds were destroyed.
    Negative(Balance),
}

/// A hold on part of an account's free balance.
#[derive(Clone, Copy, PartialEq, Eq, Debug)]
pub struct BalanceLock {
    pub id: LockIdentifier,
    pub amount: Balance,
    pub until: BlockNumber,
    pub reasons: WithdrawReasons,
}

impl BalanceLock {
    /// Whether the lock lets the balance fall to `new_balance` for `reason`
    /// at block `now`: it has run out, or covers less, or is not for that
    /// reason.
    pub open spec fn spec_allows(
        &self,
        now: BlockNumber,
        reason: WithdrawReason,
        new_balance: Balance,
    ) -> bool {
        now >= self.until || new_balance >= self.amount || !self.reasons.spec_contains(reason)
    }

    /// The lock that holds at least what either holds, for as long as either,
    /// for the reasons of both, under the name of the first.
    pub open spec fn spec_merge(&self, other: BalanceLock) -> BalanceLock {
        BalanceLock {
            id: self.id,
            amount: if self.amount >= other.amount { self.amount } else { other.amount },
            until: if self.until >= other.until { self.until } else { other.until },
            reasons: self.reasons.spec_union(other.reasons),
        }
    }
}

/// Why the currency refused an operation.
#[derive(Clone, Copy, PartialEq, Eq, Debug)]
pub enum Error {
    /// The vesting schedule keeps more than would be left.
    VestingBalance,
    /// A lock keeps more than would be left.
    LiquidityRestrictions,
    /// The sender has less than the value sent.
    BalanceTooLow,
    /// The receiver cannot hold the value.
    DestinationTooHigh,
    /// The account would be left under the minimum balance.
    WouldKillAccount,
    /// The account has less free funds than are withdrawn.
    TooFewFreeFunds,
    /// The account to pay into holds nothing.
    BeneficiaryMissing,
}

impl Error {
    /// The error in words.
    pub fn message(&self) -> (r: &'static str)
        ensures
            r@ == match *self {
                Error::VestingBalance => "vesting balance too high to send value"@,
                Error::LiquidityRestrictions => "account liquidity restrictions prevent withdrawal"@,
                Error::BalanceTooLow => "balance too low to send value"@,
                Error::DestinationTooHigh => "destination balance too high to receive value"@,
                Error::WouldKillAccount => "payment would kill account"@,
                Error::TooFewFreeFunds => "too few free funds in account"@,
                Error::BeneficiaryMissing => "beneficiary account must pre-exist"@,
            },
    {
        match self {
            Error::VestingBalance => "vesting balance too high to send value",
            Error::LiquidityRestrictions => "account liquidity restrictions prevent withdrawal",
            Error::BalanceTooLow => "balance too low to send value",
            Error::DestinationTooHigh => "destination balance too high to receive value",
            Error::WouldKillAccount => "payment would kill account",
            Error::TooFewFreeFunds => "too few free funds in account",
            Error::BeneficiaryMissing => "beneficiary account must pre-exist",
        }
    }
}

/// The amount that `m` holds for `who`: nothing where it has no entry.
pub open spec fn amount_of(m: Map<AccountId, Balance>, who: AccountId) -> Balance {
    if m.contains_key(who) {
        m[who]
    } else {
        0
    }
}

/// Whether any of `locks` goes by the name `id`.
pub open spec fn has_id(locks: Seq<BalanceLock>, id: LockIdentifier) -> bool {
    exists|i: int| 0 <= i < locks.len() && (#[trigger] locks[i]).id == id
}

/// The first `n` of `locks` after `lock` was set at block `now`: the first
/// lock of that name gives way to `lock`, later ones of that name and locks
/// that have run out are dropped, the others stay in their order.
pub open spec fn locks_replaced(
    locks: Seq<BalanceLock>,
    lock: BalanceLock,
    now: BlockNumber,
    n: int,
) -> Seq<BalanceLock>
    decreases n,
{
    if n <= 0 {
        Seq::empty()
    } else {
        let before = locks_replaced(locks, lock, now, n - 1);
        let l = locks[n - 1];
        if l.id == lock.id {
            if has_id(locks.take(n - 1), lock.id) {
                before
            } else {
                before.push(lock)
            }
        } else if l.until > now {
            before.push(l)
        } else {
            before
        }
    }
}

/// The locks of an account after `lock` was set at block `now`: it takes the
/// place of the first lock of its name, or comes last where there was none.
pub open spec fn locks_after_set(locks: Seq<BalanceLock>, lock: BalanceLock, now: BlockNumber) -> Seq<
    BalanceLock,
> {
    let kept = locks_replaced(locks, lock, now, locks.len() as int);
    if has_id(locks, lock.id) {
        kept
    } else {
        kept.push(lock)
    }
}

/// The first `n` of `locks` after a lock of the name of `lock` was extended
/// at block `now`: the first lock of that name is merged with `lock`, later
/// ones of that name and locks that have run out are dropped.
pub open spec fn locks_merged(
    locks: Seq<BalanceLock>,
    lock: BalanceLock,
    now: BlockNumber,
    n: int,
) -> Seq<BalanceLock>
    decreases n,
{
    if n <= 0 {
        Seq::empty()
    } else {
        let before = locks_merged(locks, lock, now, n - 1);
        let l = locks[n - 1];
        if l.id == lock.id {
            if has_id(locks.take(n - 1), lock.id) {
                before
            } else {
                before.push(l.spec_merge(lock))
            }
        } else if l.until > now {
            before.push(l)
        } else {
            before
        }
    }
}

/// The locks of an account after `lock` was extended at block `now`: the
/// first lock of its name now holds the larger amount until the later block
/// for the reasons of both; where there was none, `lock` comes last.
pub open spec fn locks_after_extend(
    locks: Seq<BalanceLock>,
    lock: BalanceLock,
    now: BlockNumber,
) -> Seq<BalanceLock> {
    let kept = locks_merged(locks, lock, now, locks.len() as int);
    if has_id(locks, lock.id) {
        kept
    } else {
        kept.push(lock)
    }
}

/// The locks of an account after the name `id` was removed at block `now`:
/// those of another name that have not run out.
pub open spec fn locks_after_remove(locks: Seq<BalanceLock>, id: LockIdentifier, now: BlockNumber) -> Seq<
    BalanceLock,
> {
    locks.filter(|l: BalanceLock| l.until > now && l.id != id)
}

/// What the currency holds.
pub ghost struct State {
    /// The current block.
    pub block_number: BlockNumber,
    /// The least that an account is to hold.
    pub minimum_balance: Balance,
    /// The funds in existence.
    pub total_issuance: Balance,
    /// What each account may spend.
    pub free: Map<AccountId, Balance>,
    /// What each account has set aside.
    pub reserved: Map<AccountId, Balance>,
    /// The locks on each account.
    pub locks: Map<AccountId, Seq<BalanceLock>>,
    /// The vesting schedule of each account that has one.
    pub vesting: Map<AccountId, VestingSchedule>,
}

impl State {
    /// The free balance of `who`.
    pub open spec fn free_balance(self, who: AccountId) -> Balance {
        amount_of(self.free, who)
    }

    /// The reserved balance of `who`.
    pub open spec fn reserved_balance(self, who: AccountId) -> Balance {
        amount_of(self.reserved, who)
    }

    /// Free and reserved balance together, as far as the type holds them.
    pub open spec fn total_balance(self, who: AccountId) -> Balance {
        if self.free_balance(who) + self.reserved_balance(who) > u64::MAX {
            u64::MAX
        } else {
            (self.free_balance(who) + self.reserved_balance(who)) as Balance
        }
    }

    /// The locks on `who`.
    pub open spec fn locks_of(self, who: AccountId) -> Seq<BalanceLock> {
        if self.locks.contains_key(who) {
            self.locks[who]
        } else {
            Seq::empty()
        }
    }

    /// What of the free balance of `who` is still vesting.
    pub open spec fn vesting_balance(self, who: AccountId) -> Balance {
        if self.vesting.contains_key(who) {
            let locked = self.vesting[who].spec_locked_at(self.block_number);
            if self.free_balance(who) <= locked {
                self.free_balance(who)
            } else {
                locked
            }
        } else {
            0
        }
    }

    /// Whether every lock on `who` lets the balance fall to `new_balance`.
    pub open spec fn locks_allow(self, who: AccountId, reason: WithdrawReason, new_balance: Balance) -> bool {
        forall|i: int|
            0 <= i < self.locks_of(who).len() ==> (#[trigger] self.locks_of(who)[i]).spec_allows(
                self.block_number,
                reason,
                new_balance,
            )
    }

    /// Whether `who` may be left with `new_balance` after a withdrawal for
    /// `reason`, and if not, why.
    pub open spec fn can_withdraw(self, who: AccountId, reason: WithdrawReason, new_balance: Balance) -> Result<
        (),
        Error,
    > {
        if (reason == WithdrawReason::Reserve || reason == WithdrawReason::Transfer)
            && self.vesting_balance(who) > new_balance {
            Err(Error::VestingBalance)
        } else if self.locks_allow(who, reason, new_balance) {
            Ok(())
        } else {
            Err(Error::LiquidityRestrictions)
        }
    }

    /// The state with the free balance of `who` set to `balance`.
    pub open spec fn with_free(self, who: AccountId, balance: Balance) -> State {
        State { free: self.free.insert(who, balance), ..self }
    }

    /// The state with the reserved balance of `who` set to `balance`.
    pub open spec fn with_reserved(self, who: AccountId, balance: Balance) -> State {
        State { reserved: self.reserved.insert(who, balance), ..self }
    }

    /// The state with the locks of `who` set to `locks`.
    pub open spec fn with_locks(self, who: AccountId, locks: Seq<BalanceLock>) -> State {
        State { locks: self.locks.insert(who, locks), ..self }
    }

    /// The outcome of a transfer of `value` from `transactor` to `dest`.
    pub open spec fn transfer_result(self, transactor: AccountId, dest: AccountId, value: Balance) -> Result<
        (),
        Error,
    > {
        if self.free_balance(transactor) < value {
            Err(Error::BalanceTooLow)
        } else if self.can_withdraw(
            transactor,
            WithdrawReason::Transfer,
            (self.free_balance(transactor) - value) as Balance,
        ) is Err {
            self.can_withdraw(
                transactor,
                WithdrawReason::Transfer,
                (self.free_balance(transactor) - value) as Balance,
            )
        } else if self.free_balance(dest) + value > u64::MAX {
            Err(Error::DestinationTooHigh)
        } else {
            Ok(())
        }
    }

    /// The state after `value` went from `transactor` to `dest`.
    pub open spec fn transferred(self, transactor: AccountId, dest: AccountId, value: Balance) -> State {
        if transactor == dest {
            self
        } else {
            self.with_free(transactor, (self.free_balance(transactor) - value) as Balance).with_free(
                dest,
                (self.free_balance(dest) + value) as Balance,
            )
        }
    }

    /// The outcome of a withdrawal of `value` from `who`.
    pub open spec fn withdraw_result(
        self,
        who: AccountId,
        value: Balance,
        reason: WithdrawReason,
        liveness: ExistenceRequirement,
    ) -> Result<(), Error> {
        if self.free_balance(who) < value {
            Err(Error::TooFewFreeFunds)
        } else if liveness == ExistenceRequirement::KeepAlive && self.free_balance(who) - value
            < self.minimum_balance {
            Err(Error::WouldKillAccount)
        } else {
            self.can_withdraw(who, reason, (self.free_balance(who) - value) as Balance)
        }
    }

    /// What a slash of `value` takes from the free balance of `who`.
    pub open spec fn slashed_free(self, who: AccountId, value: Balance) -> Balance {
        if self.free_balance(who) <= value {
            self.free_balance(who)
        } else {
            value
        }
    }

    /// What a slash of `value` takes from the reserved balance of `who`: what
    /// the free balance could not give, as far as the reserve holds it.
    pub open spec fn slashed_reserved(self, who: AccountId, value: Balance) -> Balance {
        let rest = value - self.slashed_free(who, value);
        if self.reserved_balance(who) <= rest {
            self.reserved_balance(who)
        } else {
            rest as Balance
        }
    }

    /// The state after `who` was slashed by `value`.
    pub open spec fn slashed(self, who: AccountId, value: Balance) -> State {
        let s = self.with_free(who, (self.free_balance(who) - self.slashed_free(who, value)) as Balance);
        if value == self.slashed_free(who, value) {
            s
        } else {
            s.with_reserved(
                who,
                (self.reserved_balance(who) - self.slashed_reserved(who, value)) as Balance,
            )
        }
    }

    /// The free balance of `who` after a deposit of `value`, held at the
    /// largest balance the type can express.
    pub open spec fn deposited(self, who: AccountId, value: Balance) -> Balance {
        if self.free_balance(who) + value > u64::MAX {
            u64::MAX
        } else {
            (self.free_balance(who) + value) as Balance
        }
    }
}

/// The currency module: the balances, locks and vesting schedules of all
/// accounts.
pub struct Module {
    block_number: BlockNumber,
    minimum_balance: Balance,
    total_issuance: Balance,
    free_balance: StorageMap<Balance>,
    reserved_balance: StorageMap<Balance>,
    locks: StorageMap<Vec<BalanceLock>>,
    vesting: StorageMap<VestingSchedule>,
}

impl View for Module {
    type V = State;

    closed spec fn view(&self) -> State {
        State {
            block_number: self.block_number,
            minimum_balance: self.minimum_balance,
            total_issuance: self.total_issuance,
            free: self.free_balance@,
            reserved: self.reserved_balance@,
            locks: self.locks@,
            vesting: self.vesting@,
        }
    }
}

impl Module {
    /// The stores are in order.
    pub closed spec fn wf(&self) -> bool {
        &&& self.free_balance.wf()
        &&& self.reserved_balance.wf()
        &&& self.locks.wf()
        &&& self.vesting.wf()
    }

    /// A currency without accounts, at block zero.
    pub fn new(minimum_balance: Balance) -> (r: Module)
        ensures
            r.wf(),
            r@ == (State {
                block_number: 0,
                minimum_balance,
                total_issuance: 0,
                free: Map::empty(),
                reserved: Map::empty(),
                locks: Map::empty(),
                vesting: Map::empty(),
            }),
    {
        Module {
            block_number: 0,
            minimum_balance,
            total_issuance: 0,
            free_balance: StorageMap::new(),
            reserved_balance: StorageMap::new(),
            locks: StorageMap::new(),
            vesting: StorageMap::new(),
        }
    }

    /// The current block.
    pub fn block_number(&self) -> (r: BlockNumber)
        ensures
            r == self@.block_number,
    {
        self.block_number
    }

    /// Moves the currency to block `now`.
    pub fn set_block_number(&mut self, now: BlockNumber)
        requires
            old(self).wf(),
        ensures
            final(self).wf(),
            final(self)@ == (State { block_number: now, ..old(self)@ }),
    {
        self.block_number = now;
    }

    /// Gives `who` the vesting schedule `schedule`.
    pub fn set_vesting_schedule(&mut self, who: AccountId, schedule: VestingSchedule)
        requires
            old(self).wf(),
        ensures
            final(self).wf(),
            final(self)@ == (State { vesting: old(self)@.vesting.insert(who, schedule), ..old(self)@ }),
    {
        self.vesting.insert(who, schedule);
    }

    /// What of the free balance of `who` is still vesting.
    pub fn vesting_balance(&self, who: AccountId) -> (r: Balance)
        requires
            self.wf(),
        ensures
            r == self@.vesting_balance(who),
    {
        let free = self.free_balance(who);
        match self.vesting.get(who) {
            Some(v) => {
                let locked = v.locked_at(self.block_number);
                if free <= locked {
                    free
                } else {
                    locked
                }
            },
            None => 0,
        }
    }

    fn set_free_balance(&mut self, who: AccountId, balance: Balance) -> (r: UpdateBalanceOutcome)
        requires
            old(self).wf(),
        ensures
            final(self).wf(),
            final(self)@ == old(self)@.with_free(who, balance),
            r == UpdateBalanceOutcome::Updated,
    {
        self.free_balance.insert(who, balance);
        UpdateBalanceOutcome::Updated
    }

    fn set_reserved_balance(&mut self, who: AccountId, balance: Balance) -> (r: UpdateBalanceOutcome)
        requires
            old(self).wf(),
        ensures
            final(self).wf(),
            final(self)@ == old(self)@.with_reserved(who, balance),
            r == UpdateBalanceOutcome::Updated,
    {
        self.reserved_balance.insert(who, balance);
        UpdateBalanceOutcome::Updated
    }

    /// The reserved balance of `who`.
    pub fn reserved_balance(&self, who: AccountId) -> (r: Balance)
        requires
            self.wf(),
        ensures
            r == self@.reserved_balance(who),
    {
        match self.reserved_balance.get(who) {
            Some(b) => *b,
            None => 0,
        }
    }

    /// Free and reserved balance of `who` together.
    pub fn total_balance(&self, who: AccountId) -> (r: Balance)
        requires
            self.wf(),
        ensures
            r == self@.total_balance(who),
    {
        self.free_balance(who).saturating_add(self.reserved_balance(who))
    }

    /// Whether the free balance of `who` covers a slash of `value`.
    pub fn can_slash(&self, who: AccountId, value: Balance) -> (r: bool)
        requires
            self.wf(),
        ensures
            r == (self@.free_balance(who) >= value),
    {
        self.free_balance(who) >= value
    }

    /// The funds in existence.
    pub fn total_issuance(&self) -> (r: Balance)
        ensures
            r == self@.total_issuance,
    {
        self.total_issuance
    }

    /// The least that an account is to hold.
    pub fn minimum_balance(&self) -> (r: Balance)
        ensures
            r == self@.minimum_balance,
    {
        self.minimum_balance
    }

    /// What `who` may spend.
    pub fn free_balance(&self, who: AccountId) -> (r: Balance)
        requires
            self.wf(),
        ensures
            r == self@.free_balance(who),
    {
        match self.free_balance.get(who) {
            Some(b) => *b,
            None => 0,
        }
    }

    /// The locks on `who`.
    pub fn locks(&self, who: AccountId) -> (r: Vec<BalanceLock>)
        requires
            self.wf(),
        ensures
            r@ == self@.locks_of(who),
    {
        let mut out: Vec<BalanceLock> = Vec::new();
        match self.locks.get(who) {
            Some(locks) => {
                let mut i: usize = 0;
                while i < locks.len()
                    invariant
                        i <= locks.len(),
                        out@ == locks@.take(i as int),
                    decreases locks.len() - i,
                {
                    out.push(locks[i]);
                    assert(out@ =~= locks@.take(i + 1));
                    i += 1;
                }
                assert(locks@.take(locks@.len() as int) =~= locks@);
            },
            None => {},
        }
        out
    }

    /// Whether `who` may be left with `new_balance` after a withdrawal for
    /// `reason`: neither its vesting schedule nor any of its locks may keep
    /// more.
    pub fn ensure_can_withdraw(
        &self,
        who: AccountId,
        _amount: Balance,
        reason: WithdrawReason,
        new_balance: Balance,
    ) -> (r: Result<(), Error>)
        requires
            self.wf(),
        ensures
            r == self@.can_withdraw(who, reason, new_balance),
    {
        match reason {
            WithdrawReason::Reserve | WithdrawReason::Transfer => {
                if self.vesting_balance(who) > new_balance {
                    return Err(Error::VestingBalance);
                }
            },
            _ => {},
        }
        let now = self.block_number;
        match self.locks.get(who) {
            None => Ok(()),
            Some(locks) => {
                let mut i: usize = 0;
                while i < locks.len()
                    invariant
                        i <= locks.len(),
                        locks@ == self@.locks_of(who),
                        now == self@.block_number,
                        !((reason == WithdrawReason::Reserve || reason == WithdrawReason::Transfer)
                            && self@.vesting_balance(who) > new_balance),
                        forall|j: int|
                            0 <= j < i ==> (#[trigger] locks@[j]).spec_allows(now, reason, new_balance),
                    decreases locks.len() - i,
                {
                    let l = locks[i];
                    if !(now >= l.until || new_balance >= l.amount || !l.reasons.contains(reason)) {
                        assert(!self@.locks_of(who)[i as int].spec_allows(now, reason, new_balance));
                        return Err(Error::LiquidityRestrictions);
                    }
                    i += 1;
                }
                Ok(())
            },
        }
    }

    /// Moves `value` from the free balance of `transactor` to that of `dest`.
    /// On an error nothing changes.
    pub fn transfer(&mut self, transactor: AccountId, dest: AccountId, value: Balance) -> (r: Result<
        (),
        Error,
    >)
        requires
            old(self).wf(),
        ensures
            final(self).wf(),
            r == old(self)@.transfer_result(transactor, dest, value),
            r is Ok ==> final(self)@ == old(self)@.transferred(transactor, dest, value),
            r is Err ==> final(self)@ == old(self)@,
    {
        let from_balance = self.free_balance(transactor);
        let to_balance = self.free_balance(dest);
        let new_from_balance = match from_balance.checked_sub(value) {
            None => return Err(Error::BalanceTooLow),
            Some(b) => b,
        };
        match self.ensure_can_withdraw(transactor, value, WithdrawReason::Transfer, new_from_balance) {
            Err(e) => return Err(e),
            Ok(_) => {},
        }
        let new_to_balance = match to_balance.checked_add(value) {
            Some(b) => b,
            None => return Err(Error::DestinationTooHigh),
        };
        if transactor != dest {
            self.set_free_balance(transactor, new_from_balance);
            self.set_free_balance(dest, new_to_balance);
        }
        Ok(())
    }

    /// Takes `value` out of the free balance of `who`, and hands it back as
    /// the amount that ceased to be. On an error nothing changes.
    pub fn withdraw(
        &mut self,
        who: AccountId,
        value: Balance,
        reason: WithdrawReason,
        liveness: ExistenceRequirement,
    ) -> (r: Result<Balance, Error>)
        requires
            old(self).wf(),
        ensures
            final(self).wf(),
            match r {
                Ok(taken) => {
                    &&& old(self)@.withdraw_result(who, value, reason, liveness) is Ok
                    &&& taken == value
                    &&& final(self)@ == old(self)@.with_free(
                        who,
                        (old(self)@.free_balance(who) - value) as Balance,
                    )
                },
                Err(e) => {
                    &&& old(self)@.withdraw_result(who, value, reason, liveness) == Err::<(), Error>(e)
                    &&& final(self)@ == old(self)@
                },
            },
    {
        let old_balance = self.free_balance(who);
        match old_balance.checked_sub(value) {
            Some(new_balance) => {
                match liveness {
                    ExistenceRequirement::KeepAlive => {
                        if new_balance < self.minimum_balance {
                            return Err(Error::WouldKillAccount);
                        }
                    },
                    ExistenceRequirement::AllowDeath => {},
                }
                match self.ensure_can_withdraw(who, value, reason, new_balance) {
                    Err(e) => return Err(e),
                    Ok(_) => {},
                }
                self.set_free_balance(who, new_balance);
                Ok(value)
            },
            None => Err(Error::TooFewFreeFunds),
        }
    }

    /// Takes up to `value` from `who`, from the free balance first and from
    /// the reserved balance for the rest. Hands back what was taken and what
    /// could not be.
    pub fn slash(&mut self, who: AccountId, value: Balance) -> (r: (Balance, Balance))
        requires
            old(self).wf(),
        ensures
            final(self).wf(),
            final(self)@ == old(self)@.slashed(who, value),
            r.0 == old(self)@.slashed_free(who, value) + old(self)@.slashed_reserved(who, value),
            r.0 + r.1 == value,
            final(self)@.free_balance(who) == old(self)@.free_balance(who) - old(self)@.slashed_free(
                who,
                value,
            ),
            final(self)@.reserved_balance(who) == old(self)@.reserved_balance(who) - old(
                self,
            )@.slashed_reserved(who, value),
    {
        let free_balance = self.free_balance(who);
        let free_slash = if free_balance <= value { free_balance } else { value };
        let new_balance = free_balance - free_slash;
        self.set_free_balance(who, new_balance);
        let remaining_slash = value - free_slash;
        if remaining_slash != 0 {
            let reserved_balance = self.reserved_balance(who);
            let reserved_slash = if reserved_balance <= remaining_slash {
                reserved_balance
            } else {
                remaining_slash
            };
            self.set_reserved_balance(who, reserved_balance - reserved_slash);
            (free_slash + reserved_slash, remaining_slash - reserved_slash)
        } else {
            (value, 0)
        }
    }

    /// Adds `value` to the free balance of `who`, which must hold something
    /// already, and hands back by how much the balance grew: `value`, or what
    /// the balance type still had room for.
    pub fn deposit_into_existing(&mut self, who: AccountId, value: Balance) -> (r: Result<Balance, Error>)
        requires
            old(self).wf(),
        ensures
            final(self).wf(),
            r is Err <==> old(self)@.total_balance(who) == 0,
            r is Err ==> r == Err::<Balance, Error>(Error::BeneficiaryMissing) && final(self)@ == old(
                self,
            )@,
            r is Ok ==> r.unwrap() == old(self)@.deposited(who, value) - old(self)@.free_balance(who)
                && final(self)@ == old(self)@.with_free(who, old(self)@.deposited(who, value)),
    {
        if self.total_balance(who) == 0 {
            return Err(Error::BeneficiaryMissing);
        }
        let old_balance = self.free_balance(who);
        let new_balance = old_balance.saturating_add(value);
        self.set_free_balance(who, new_balance);
        Ok(new_balance - old_balance)
    }

    /// Adds `value` to the free balance of `who`, whether or not the account
    /// holds anything, and hands back by how much the balance grew.
    pub fn deposit_creating(&mut self, who: AccountId, value: Balance) -> (r: Balance)
        requires
            old(self).wf(),
        ensures
            final(self).wf(),
            r == old(self)@.deposited(who, value) - old(self)@.free_balance(who),
            final(self)@ == old(self)@.with_free(who, old(self)@.deposited(who, value)),
    {
        let old_balance = self.free_balance(who);
        let new_balance = old_balance.saturating_add(value);
        let (imbalance, _) = self.make_free_balance_be(who, new_balance);
        match imbalance {
            SignedImbalance::Positive(p) => p,
            SignedImbalance::Negative(_) => 0,
        }
    }

    /// Sets the free balance of `who` to `balance`, and says by how much
    /// funds came into being or ceased to be.
    pub fn make_free_balance_be(&mut self, who: AccountId, balance: Balance) -> (r: (
        SignedImbalance,
        UpdateBalanceOutcome,
    ))
        requires
            old(self).wf(),
        ensures
            final(self).wf(),
            final(self)@ == old(self)@.with_free(who, balance),
            r.1 == UpdateBalanceOutcome::Updated,
            r.0 == if old(self)@.free_balance(who) <= balance {
                SignedImbalance::Positive((balance - old(self)@.free_balance(who)) as Balance)
            } else {
                SignedImbalance::Negative((old(self)@.free_balance(who) - balance) as Balance)
            },
    {
        let before = self.free_balance(who);
        let imbalance = if before <= balance {
            SignedImbalance::Positive(balance - before)
        } else {
            SignedImbalance::Negative(before - balance)
        };
        let outcome = self.set_free_balance(who, balance);
        (imbalance, outcome)
    }

    /// Takes up to `amount` out of the funds in existence, and says how much
    /// it was.
    pub fn burn(&mut self, amount: Balance) -> (r: Balance)
        requires
            old(self).wf(),
        ensures
            final(self).wf(),
            r == if amount <= old(self)@.total_issuance { amount } else { old(self)@.total_issuance },
            final(self)@ == (State {
                total_issuance: (old(self)@.total_issuance - r) as Balance,
                ..old(self)@
            }),
    {
        match self.total_issuance.checked_sub(amount) {
            Some(left) => {
                self.total_issuance = left;
                amount
            },
            None => {
                let burnt = self.total_issuance;
                self.total_issuance = 0;
                burnt
            },
        }
    }

    /// Adds up to `amount` to the funds in existence, which stay at the
    /// largest amount the type can express, and says how much it was.
    pub fn issue(&mut self, amount: Balance) -> (r: Balance)
        requires
            old(self).wf(),
        ensures
            final(self).wf(),
            r == if old(self)@.total_issuance + amount <= u64::MAX {
                amount
            } else {
                (u64::MAX - old(self)@.total_issuance) as Balance
            },
            final(self)@ == (State {
                total_issuance: (old(self)@.total_issuance + r) as Balance,
                ..old(self)@
            }),
    {
        match self.total_issuance.checked_add(amount) {
            Some(sum) => {
                self.total_issuance = sum;
                amount
            },
            None => {
                let issued = u64::MAX - self.total_issuance;
                self.total_issuance = u64::MAX;
                issued
            },
        }
    }

    /// Sets the lock `id` on `who` to `amount` until block `until` for
    /// `reasons`, in place of what it was, and drops the locks that have run
    /// out.
    pub fn set_lock(
        &mut self,
        id: LockIdentifier,
        who: AccountId,
        amount: Balance,
        until: BlockNumber,
        reasons: WithdrawReasons,
    )
        requires
            old(self).wf(),
        ensures
            final(self).wf(),
            final(self)@ == old(self)@.with_locks(
                who,
                locks_after_set(
                    old(self)@.locks_of(who),
                    BalanceLock { id, amount, until, reasons },
                    old(self)@.block_number,
                ),
            ),
    {
        let now = self.block_number;
        let lock = BalanceLock { id, amount, until, reasons };
        let mut placed = false;
        let mut out: Vec<BalanceLock> = Vec::new();
        let ghost before = self@.locks_of(who);
        match self.locks.get(who) {
            Some(locks) => {
                let mut i: usize = 0;
                while i < locks.len()
                    invariant
                        i <= locks.len(),
                        locks@ == before,
                        placed == has_id(before.take(i as int), id),
                        lock.id == id,
                        out@ == locks_replaced(before, lock, now, i as int),
                    decreases locks.len() - i,
                {
                    let l = locks[i];
                    proof {
                        lemma_has_id_step(before, id, i as int);
                    }
                    if same_id(&l.id, &id) {
                        if !placed {
                            out.push(lock);
                            placed = true;
                        }
                    } else if l.until > now {
                        out.push(l);
                    }
                    i += 1;
                }
                assert(before.take(before.len() as int) =~= before);
            },
            None => {
                assert(!has_id(before, id));
            },
        }
        if !placed {
            out.push(lock);
        }
        self.locks.insert(who, out);
    }

    /// Extends the lock `id` on `who`: it then holds the larger of the two
    /// amounts until the later of the two blocks for the reasons of both.
    /// Where there is none it is set. Locks that have run out are dropped.
    pub fn extend_lock(
        &mut self,
        id: LockIdentifier,
        who: AccountId,
        amount: Balance,
        until: BlockNumber,
        reasons: WithdrawReasons,
    )
        requires
            old(self).wf(),
        ensures
            final(self).wf(),
            final(self)@ == old(self)@.with_locks(
                who,
                locks_after_extend(
                    old(self)@.locks_of(who),
                    BalanceLock { id, amount, until, reasons },
                    old(self)@.block_number,
                ),
            ),
    {
        let now = self.block_number;
        let lock = BalanceLock { id, amount, until, reasons };
        let mut placed = false;
        let mut out: Vec<BalanceLock> = Vec::new();
        let ghost before = self@.locks_of(who);
        match self.locks.get(who) {
            Some(locks) => {
                let mut i: usize = 0;
                while i < locks.len()
                    invariant
                        i <= locks.len(),
                        locks@ == before,
                        placed == has_id(before.take(i as int), id),
                        lock == (BalanceLock { id, amount, until, reasons }),
                        out@ == locks_merged(before, lock, now, i as int),
                    decreases locks.len() - i,
                {
                    let l = locks[i];
                    proof {
                        lemma_has_id_step(before, id, i as int);
                    }
                    if same_id(&l.id, &id) {
                        if !placed {
                            out.push(
                                BalanceLock {
                                    id: l.id,
                                    amount: if l.amount >= amount { l.amount } else { amount },
                                    until: if l.until >= until { l.until } else { until },
                                    reasons: l.reasons.union(reasons),
                                },
                            );
                            placed = true;
                        }
                    } else if l.until > now {
                        out.push(l);
                    }
                    i += 1;
                }
                assert(before.take(before.len() as int) =~= before);
            },
            None => {
                assert(!has_id(before, id));
            },
        }
        if !placed {
            out.push(lock);
        }
        self.locks.insert(who, out);
    }

    /// Removes the lock `id` from `who`, and with it the locks that have run
    /// out.
    pub fn remove_lock(&mut self, id: LockIdentifier, who: AccountId)
        requires
            old(self).wf(),
        ensures
            final(self).wf(),
            final(self)@ == old(self)@.with_locks(
                who,
                locks_after_remove(old(self)@.locks_of(who), id, old(self)@.block_number),
            ),
    {
        let now = self.block_number;
        let mut out: Vec<BalanceLock> = Vec::new();
        let ghost before = self@.locks_of(who);
        let ghost keep = |l: BalanceLock| l.until > now && l.id != id;
        match self.locks.get(who) {
            Some(locks) => {
                let mut i: usize = 0;
                while i < locks.len()
                    invariant
                        i <= locks.len(),
                        locks@ == before,
                        keep == (|l: BalanceLock| l.until > now && l.id != id),
                        out@ == before.take(i as int).filter(keep),
                    decreases locks.len() - i,
                {
                    let l = locks[i];
                    proof {
                        assert(before.take(i + 1).drop_last() =~= before.take(i as int));
                        reveal(Seq::filter);
                    }
                    if l.until > now && !same_id(&l.id, &id) {
                        out.push(l);
                    }
                    i += 1;
                }
                assert(before.take(before.len() as int) =~= before);
            },
            None => {
                reveal(Seq::filter);
                assert(before.take(0) =~= before);
            },
        }
        self.locks.insert(who, out);
    }
}

/// Whether `locks` are as a lock set at block `now` leaves them: `lock` is
/// the one lock of its name, and no other lock has run out.
pub open spec fn settled_locks(locks: Seq<BalanceLock>, lock: BalanceLock, now: BlockNumber) -> bool {
    &&& forall|i: int| 0 <= i < locks.len() && (#[trigger] locks[i]).id == lock.id ==> locks[i] == lock
    &&& forall|i: int| 0 <= i < locks.len() && (#[trigger] locks[i]).id != lock.id ==> locks[i].until > now
    &&& forall|i: int, j: int|
        0 <= i < j < locks.len() ==> !((#[trigger] locks[i]).id == lock.id && (#[trigger] locks[j]).id == lock.id)
}

/// What the first `n` locks leave when `lock` is set is settled, and holds
/// `lock` where one of them has its name.
pub proof fn lemma_locks_replaced_settled(locks: Seq<BalanceLock>, lock: BalanceLock, now: BlockNumber, n: int)
    requires
        0 <= n <= locks.len(),
    ensures
        settled_locks(locks_replaced(locks, lock, now, n), lock, now),
        has_id(locks_replaced(locks, lock, now, n), lock.id) <==> has_id(locks.take(n), lock.id),
    decreases n,
{
    let after = locks_replaced(locks, lock, now, n);
    if n > 0 {
        lemma_locks_replaced_settled(locks, lock, now, n - 1);
        lemma_has_id_step(locks, lock.id, n - 1);
        let before = locks_replaced(locks, lock, now, n - 1);
        let l = locks[n - 1];
        if has_id(before, lock.id) {
            let j = choose|j: int| 0 <= j < before.len() && (#[trigger] before[j]).id == lock.id;
            if after.len() > before.len() {
                assert(after[j] == before[j]);
            }
            assert(after[j].id == lock.id);
        }
        if after.len() > before.len() {
            assert(after == before.push(after.last()));
            assert forall|i: int| 0 <= i < before.len() implies #[trigger] after[i] == before[i] by {}
            if after.last().id == lock.id {
                assert(!has_id(before, lock.id));
                assert(after[after.len() - 1].id == lock.id);
                assert forall|i: int, j: int| 0 <= i < j < after.len() implies !((#[trigger] after[i]).id
                    == lock.id && (#[trigger] after[j]).id == lock.id) by {
                    if after[i].id == lock.id {
                        assert(before[i].id == lock.id);
                    }
                }
            } else {
                if has_id(after, lock.id) {
                    let j = choose|j: int| 0 <= j < after.len() && (#[trigger] after[j]).id == lock.id;
                    assert(before[j].id == lock.id);
                }
            }
        }
    } else {
        assert(locks.take(0) =~= Seq::<BalanceLock>::empty());
    }
}

/// Settled locks stay as they are when the lock is set again.
pub proof fn lemma_settled_locks_stay(locks: Seq<BalanceLock>, lock: BalanceLock, now: BlockNumber, n: int)
    requires
        settled_locks(locks, lock, now),
        0 <= n <= locks.len(),
    ensures
        locks_replaced(locks, lock, now, n) == locks.take(n),
    decreases n,
{
    if n > 0 {
        lemma_settled_locks_stay(locks, lock, now, n - 1);
        let l = locks[n - 1];
        assert(locks.take(n) =~= locks.take(n - 1).push(l));
        if l.id == lock.id {
            if has_id(locks.take(n - 1), lock.id) {
                let j = choose|j: int|
                    0 <= j < locks.take(n - 1).len() && (#[trigger] locks.take(n - 1)[j]).id == lock.id;
                assert(locks[j].id == lock.id);
                assert(!(locks[j].id == lock.id && locks[n - 1].id == lock.id));
            }
        }
    } else {
        assert(locks.take(0) =~= Seq::<BalanceLock>::empty());
    }
}

/// To set a lock twice at the same block is to set it once.
pub proof fn lemma_set_lock_twice(locks: Seq<BalanceLock>, lock: BalanceLock, now: BlockNumber)
    ensures
        locks_after_set(locks_after_set(locks, lock, now), lock, now) == locks_after_set(locks, lock, now),
{
    let once = locks_after_set(locks, lock, now);
    let kept = locks_replaced(locks, lock, now, locks.len() as int);
    lemma_locks_replaced_settled(locks, lock, now, locks.len() as int);
    assert(locks.take(locks.len() as int) =~= locks);
    if !has_id(locks, lock.id) {
        assert(once == kept.push(lock));
        assert(once[once.len() - 1].id == lock.id);
        assert forall|i: int| 0 <= i < kept.len() implies #[trigger] once[i] == kept[i] by {}
        assert forall|i: int, j: int| 0 <= i < j < once.len() implies !((#[trigger] once[i]).id == lock.id
            && (#[trigger] once[j]).id == lock.id) by {
            if once[i].id == lock.id {
                assert(kept[i].id == lock.id);
            }
        }
    } else {
        let j = choose|j: int| 0 <= j < kept.len() && (#[trigger] kept[j]).id == lock.id;
        assert(once[j].id == lock.id);
    }
    assert(settled_locks(once, lock, now));
    assert(has_id(once, lock.id));
    lemma_settled_locks_stay(once, lock, now, once.len() as int);
    assert(once.take(once.len() as int) =~= once);
}

/// A name occurs among the first `i + 1` locks where it occurs among the
/// first `i` or is that of the next.
pub proof fn lemma_has_id_step(locks: Seq<BalanceLock>, id: LockIdentifier, i: int)
    requires
        0 <= i < locks.len(),
    ensures
        has_id(locks.take(i + 1), id) <==> (has_id(locks.take(i), id) || locks[i].id == id),
{
    if has_id(locks.take(i), id) {
        let j = choose|j: int| 0 <= j < locks.take(i).len() && (#[trigger] locks.take(i)[j]).id == id;
        assert(locks.take(i + 1)[j].id == id);
    }
    if locks[i].id == id {
        assert(locks.take(i + 1)[i].id == id);
    }
    if has_id(locks.take(i + 1), id) {
        let j = choose|j: int|
            0 <= j < locks.take(i + 1).len() && (#[trigger] locks.take(i + 1)[j]).id == id;
        if j < i {
            assert(locks.take(i)[j].id == id);
        }
    }
}

} // verus!
