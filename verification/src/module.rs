//! The staking module: the bonded stashes and their ledgers, the registry of
//! validators and nominators, the exposures of the elected validators, and
//! the operations on them.

use vstd::prelude::*;
use crate::exposure::{Exposure, ExposureView};
use crate::kton;
use crate::kton::{BalanceLock, LockIdentifier, WithdrawReasons, locks_after_set};
use crate::ledger::{LedgerView, StakingLedger, UnlockChunk, MAX_UNLOCKING_CHUNKS};
use crate::ledger::lemma_chunks_nonnegative;
use crate::perbill::{Perbill, BILLION};
use crate::phragmen::{Nomination, NominationView, Stake, nominations_view};
use crate::primitives::{AccountId, Balance, BlockNumber, EraIndex, ErasNums, SessionIndex};
use crate::registry::{PrefsView, RewardDestination, ValidatorPrefs, MAX_NOMINATIONS, MAX_UNSTAKE_THRESHOLD};
use crate::registry::copy_accounts;
use crate::store::{StorageMap, ordered};

verus! {

/// The most reports of offline validators that are kept.
pub const RECENT_OFFLINE_COUNT: usize = 32;

/// The floor under the number of validators, where none is configured.
pub const DEFAULT_MINIMUM_VALIDATOR_COUNT: u32 = 4;

/// The number of sessions per era, where none is configured.
pub const DEFAULT_SESSIONS_PER_ERA: u32 = 3;

/// The number of eras that staked funds stay bonded for, where none is
/// configured.
pub const DEFAULT_BONDING_DURATION: u32 = 1;

/// The name of the lock under which stake is held.
pub const STAKING_ID: LockIdentifier = [115, 116, 97, 107, 105, 110, 103, 32];

/// The lock that holds `amount` of stake: for good, and against every
/// withdrawal.
pub open spec fn staking_lock(amount: Balance) -> BalanceLock {
    BalanceLock { id: STAKING_ID, amount, until: u64::MAX, reasons: WithdrawReasons::spec_all() }
}

/// The currency once the stake of `stash` is locked at `amount`.
pub open spec fn relocked(currency: kton::State, stash: AccountId, amount: Balance) -> kton::State {
    currency.with_locks(
        stash,
        locks_after_set(currency.locks_of(stash), staking_lock(amount), currency.block_number),
    )
}

/// What the module lets the outside world know.
#[derive(Clone, Copy, PartialEq, Eq, Debug)]
pub enum Event {
    /// All validators have been rewarded by the given balance.
    Reward(Balance),
    /// One validator (and its nominators) has been given an offline-warning
    /// (it is still within its grace). The accrued number of slashes is
    /// recorded, too.
    OfflineWarning(AccountId, u32),
    /// One validator (and its nominators) has been slashed by the given
    /// amount.
    OfflineSlash(AccountId, Balance),
}

/// Why the module refused an operation.
#[derive(Clone, Copy, PartialEq, Eq, Debug)]
pub enum Error {
    /// The stash is bonded already.
    AlreadyBonded,
    /// The controller has a ledger already.
    AlreadyPaired,
    /// The account has no ledger.
    NotController,
    /// The account is not bonded.
    NotStash,
    /// No validator was nominated.
    EmptyTargets,
    /// The unstake threshold is above the largest allowed.
    UnstakeThresholdTooLarge,
    /// The ledger holds as many unlocking chunks as it may.
    NoMoreChunks,
}

impl Error {
    /// The error in words.
    pub fn message(&self) -> (r: &'static str)
        ensures
            r@ == match *self {
                Error::AlreadyBonded => "stash already bonded"@,
                Error::AlreadyPaired => "controller already paired"@,
                Error::NotController => "not a controller"@,
                Error::NotStash => "not a stash"@,
                Error::EmptyTargets => "targets cannot be empty"@,
                Error::UnstakeThresholdTooLarge => "unstake threshold too large"@,
                Error::NoMoreChunks => "can not schedule more unlock chunks"@,
            },
    {
        match self {
            Error::AlreadyBonded => "stash already bonded",
            Error::AlreadyPaired => "controller already paired",
            Error::NotController => "not a controller",
            Error::NotStash => "not a stash",
            Error::EmptyTargets => "targets cannot be empty",
            Error::UnstakeThresholdTooLarge => "unstake threshold too large",
            Error::NoMoreChunks => "can not schedule more unlock chunks",
        }
    }
}

/// What the module is set up with.
pub struct Config {
    /// Number of sessions per era.
    pub sessions_per_era: SessionIndex,
    /// Number of eras that staked funds must remain bonded for.
    pub bonding_duration: EraIndex,
    /// Number of eras per epoch.
    pub eras_per_epoch: ErasNums,
    /// The ideal number of staking participants.
    pub validator_count: u32,
    /// Minimum number of staking participants before emergency conditions
    /// are imposed.
    pub minimum_validator_count: u32,
    /// Slash, per validator that is taken for the first time they are found
    /// to be offline.
    pub offline_slash: Perbill,
    /// Number of instances of offline reports before slashing begins for
    /// validators.
    pub offline_slash_grace: u32,
    /// Any validators that may never be slashed or forcibly kicked.
    pub invulnerables: Vec<AccountId>,
    /// The era to start in.
    pub current_era: EraIndex,
    /// What a finished session adds to the reward of its era.
    pub current_session_reward: Balance,
    /// The reward budget of an era.
    pub current_era_total_reward: Balance,
    /// Whether the stakes of the nominators are equalized after an election.
    pub equalize: bool,
}

impl Config {
    /// An era and an epoch last at least one session and one era, and the
    /// ratios are ratios.
    pub open spec fn wf(&self) -> bool {
        &&& self.sessions_per_era > 0
        &&& self.eras_per_epoch > 0
        &&& self.offline_slash.wf()
    }
}

/// What the module holds.
pub ghost struct State {
    pub sessions_per_era: SessionIndex,
    pub bonding_duration: EraIndex,
    pub eras_per_epoch: ErasNums,
    pub validator_count: u32,
    pub minimum_validator_count: u32,
    /// In parts per billion.
    pub offline_slash: int,
    pub offline_slash_grace: u32,
    pub invulnerables: Seq<AccountId>,
    /// The controller of each bonded stash.
    pub bonded: Map<AccountId, AccountId>,
    /// The ledger of each controller.
    pub ledger: Map<AccountId, LedgerView>,
    /// Where the rewards of each stash go.
    pub payee: Map<AccountId, RewardDestination>,
    /// The preferences of each stash that wants to validate.
    pub validators: Map<AccountId, PrefsView>,
    /// The validators that each nominating stash nominates.
    pub nominators: Map<AccountId, Seq<AccountId>>,
    /// The exposure of each elected stash.
    pub stakers: Map<AccountId, ExposureView>,
    /// The stashes elected for this era.
    pub current_elected: Seq<AccountId>,
    pub current_era: EraIndex,
    pub current_session_reward: Balance,
    pub current_era_total_reward: Balance,
    /// What the sessions of this era have added up to.
    pub current_era_reward: Balance,
    /// The least total exposure among the elected.
    pub slot_stake: Balance,
    /// How often each stash was reported offline.
    pub slash_count: Map<AccountId, u32>,
    /// The latest reports: who, at which block, how many instances.
    pub recently_offline: Seq<(AccountId, BlockNumber, u32)>,
    pub forcing_new_era: bool,
    pub epoch_index: BlockNumber,
    /// Whether the stakes of the nominators are equalized after an election.
    pub equalize: bool,
}

impl State {
    /// Every ledger adds up and so does every exposure; stashes and
    /// controllers are paired one to one; no stash both validates and
    /// nominates; and what is bounded is within its bounds.
    pub open spec fn wf(self) -> bool {
        &&& self.sessions_per_era > 0
        &&& self.eras_per_epoch > 0
        &&& 0 <= self.offline_slash <= BILLION
        &&& forall|c: AccountId| #[trigger] self.ledger.contains_key(c) ==> self.ledger[c].wf()
        &&& forall|s: AccountId| #[trigger] self.stakers.contains_key(s) ==> self.stakers[s].wf()
        &&& forall|s: AccountId| #[trigger]
            self.bonded.contains_key(s) ==> self.ledger.contains_key(self.bonded[s])
                && self.ledger[self.bonded[s]].stash == s
        &&& forall|c: AccountId| #[trigger]
            self.ledger.contains_key(c) ==> self.bonded.contains_key(self.ledger[c].stash)
                && self.bonded[self.ledger[c].stash] == c
        &&& forall|s: AccountId| #[trigger]
            self.validators.contains_key(s) ==> self.validators[s].unstake_threshold
                <= MAX_UNSTAKE_THRESHOLD && !self.nominators.contains_key(s)
        &&& forall|s: AccountId| #[trigger]
            self.nominators.contains_key(s) ==> 0 < self.nominators[s].len() <= MAX_NOMINATIONS
        &&& self.recently_offline.len() <= RECENT_OFFLINE_COUNT
        &&& forall|s: AccountId| #[trigger]
            self.stakers.contains_key(s) ==> self.current_elected.contains(s)
    }

    /// What the stash `stash` has at stake: the total of the ledger of its
    /// controller, and nothing where it is not bonded.
    pub open spec fn slashable_balance_of(self, stash: AccountId) -> Balance {
        if self.bonded.contains_key(stash) && self.ledger.contains_key(self.bonded[stash]) {
            self.ledger[self.bonded[stash]].total
        } else {
            0
        }
    }

    /// The exposure of `who`: none where it is not elected.
    pub open spec fn exposure_of(self, who: AccountId) -> ExposureView {
        if self.stakers.contains_key(who) {
            self.stakers[who]
        } else {
            ExposureView::empty()
        }
    }

    /// The preferences of the validator `who`: the default ones where it has
    /// declared none.
    pub open spec fn prefs_of(self, who: AccountId) -> PrefsView {
        if self.validators.contains_key(who) {
            self.validators[who]
        } else {
            PrefsView::default()
        }
    }

    /// Where the rewards of `who` go: to the stash, where nothing else was
    /// declared.
    pub open spec fn payee_of(self, who: AccountId) -> RewardDestination {
        if self.payee.contains_key(who) {
            self.payee[who]
        } else {
            RewardDestination::Stash
        }
    }

    /// How often `who` was reported offline.
    pub open spec fn slash_count_of(self, who: AccountId) -> u32 {
        if self.slash_count.contains_key(who) {
            self.slash_count[who]
        } else {
            0
        }
    }

    /// The validators that stand for election, in the order of their
    /// stashes, each with what it has at stake.
    pub open spec fn candidates(self) -> Seq<Stake> {
        let keys = ordered(self.validators.dom());
        Seq::new(keys.len(), |i: int| Stake { who: keys[i], stake: self.slashable_balance_of(keys[i]) })
    }

    /// The nominators, in the order of their stashes, each with what it has
    /// at stake and whom it nominates.
    pub open spec fn nominations(self) -> Seq<NominationView> {
        let keys = ordered(self.nominators.dom());
        Seq::new(
            keys.len(),
            |i: int|
                NominationView {
                    who: keys[i],
                    stake: self.slashable_balance_of(keys[i]),
                    targets: self.nominators[keys[i]],
                },
        )
    }

    /// The controller of `stash`, or the account zero where it has none.
    pub open spec fn controller_of(self, stash: AccountId) -> AccountId {
        if self.bonded.contains_key(stash) {
            self.bonded[stash]
        } else {
            0
        }
    }

    /// The slash counts once the first `n` of `elected` have lived through
    /// an era: each count above one is one less.
    pub open spec fn decayed(self, elected: Seq<AccountId>, n: int) -> Map<AccountId, u32>
        decreases n,
    {
        if n <= 0 {
            self.slash_count
        } else {
            let before = self.decayed(elected, n - 1);
            let v = elected[n - 1];
            if before.contains_key(v) && before[v] > 1 {
                before.insert(v, (before[v] - 1) as u32)
            } else {
                before
            }
        }
    }

    /// The state with `ledger` as the ledger of `controller`.
    pub open spec fn with_ledger(self, controller: AccountId, ledger: LedgerView) -> State {
        State { ledger: self.ledger.insert(controller, ledger), ..self }
    }
}

/// The staking module.
pub struct Module {
    pub(crate) sessions_per_era: SessionIndex,
    pub(crate) bonding_duration: EraIndex,
    pub(crate) eras_per_epoch: ErasNums,
    pub(crate) validator_count: u32,
    pub(crate) minimum_validator_count: u32,
    pub(crate) offline_slash: Perbill,
    pub(crate) offline_slash_grace: u32,
    pub(crate) invulnerables: Vec<AccountId>,
    pub(crate) bonded: StorageMap<AccountId>,
    pub(crate) ledger: StorageMap<StakingLedger>,
    pub(crate) payee: StorageMap<RewardDestination>,
    pub(crate) validators: StorageMap<ValidatorPrefs>,
    pub(crate) nominators: StorageMap<Vec<AccountId>>,
    pub(crate) stakers: StorageMap<Exposure>,
    pub(crate) current_elected: Vec<AccountId>,
    pub(crate) current_era: EraIndex,
    pub(crate) current_session_reward: Balance,
    pub(crate) current_era_total_reward: Balance,
    pub(crate) current_era_reward: Balance,
    pub(crate) slot_stake: Balance,
    pub(crate) slash_count: StorageMap<u32>,
    pub(crate) recently_offline: Vec<(AccountId, BlockNumber, u32)>,
    pub(crate) forcing_new_era: bool,
    pub(crate) epoch_index: BlockNumber,
    pub(crate) equalize: bool,
}

impl View for Module {
    type V = State;

    closed spec fn view(&self) -> State {
        State {
            sessions_per_era: self.sessions_per_era,
            bonding_duration: self.bonding_duration,
            eras_per_epoch: self.eras_per_epoch,
            validator_count: self.validator_count,
            minimum_validator_count: self.minimum_validator_count,
            offline_slash: self.offline_slash@,
            offline_slash_grace: self.offline_slash_grace,
            invulnerables: self.invulnerables@,
            bonded: self.bonded@,
            ledger: self.ledger@,
            payee: self.payee@,
            validators: self.validators@,
            nominators: self.nominators@,
            stakers: self.stakers@,
            current_elected: self.current_elected@,
            current_era: self.current_era,
            current_session_reward: self.current_session_reward,
            current_era_total_reward: self.current_era_total_reward,
            current_era_reward: self.current_era_reward,
            slot_stake: self.slot_stake,
            slash_count: self.slash_count@,
            recently_offline: self.recently_offline@,
            forcing_new_era: self.forcing_new_era,
            epoch_index: self.epoch_index,
            equalize: self.equalize,
        }
    }
}

impl Module {
    /// The stores are in order and the ratios are ratios.
    pub closed spec fn stores_wf(&self) -> bool {
        &&& self.bonded.wf()
        &&& self.ledger.wf()
        &&& self.payee.wf()
        &&& self.validators.wf()
        &&& self.nominators.wf()
        &&& self.stakers.wf()
        &&& self.slash_count.wf()
        &&& self.offline_slash.wf()
    }

    /// The module is in order, and what it holds is well-formed.
    pub open spec fn wf(&self) -> bool {
        self.stores_wf() && self@.wf()
    }

    /// The registry of a module in order holds finitely many stashes.
    pub proof fn lemma_finite(&self)
        requires
            self.wf(),
        ensures
            self@.validators.dom().finite(),
            self@.nominators.dom().finite(),
    {
        self.validators.lemma_keys();
        self.nominators.lemma_keys();
    }

    /// The module as `config` sets it up, with nobody bonded.
    pub fn new(config: Config) -> (r: Module)
        requires
            config.wf(),
        ensures
            r.wf(),
            r@ == (State {
                sessions_per_era: config.sessions_per_era,
                bonding_duration: config.bonding_duration,
                eras_per_epoch: config.eras_per_epoch,
                validator_count: config.validator_count,
                minimum_validator_count: config.minimum_validator_count,
                offline_slash: config.offline_slash@,
                offline_slash_grace: config.offline_slash_grace,
                invulnerables: config.invulnerables@,
                bonded: Map::empty(),
                ledger: Map::empty(),
                payee: Map::empty(),
                validators: Map::empty(),
                nominators: Map::empty(),
                stakers: Map::empty(),
                current_elected: Seq::empty(),
                current_era: config.current_era,
                current_session_reward: config.current_session_reward,
                current_era_total_reward: config.current_era_total_reward,
                current_era_reward: 0,
                slot_stake: 0,
                slash_count: Map::empty(),
                recently_offline: Seq::empty(),
                forcing_new_era: false,
                epoch_index: 0,
                equalize: config.equalize,
            }),
    {
        proof {
            config.offline_slash.lemma_wf();
        }
        Module {
            sessions_per_era: config.sessions_per_era,
            bonding_duration: config.bonding_duration,
            eras_per_epoch: config.eras_per_epoch,
            validator_count: config.validator_count,
            minimum_validator_count: config.minimum_validator_count,
            offline_slash: config.offline_slash,
            offline_slash_grace: config.offline_slash_grace,
            invulnerables: config.invulnerables,
            bonded: StorageMap::new(),
            ledger: StorageMap::new(),
            payee: StorageMap::new(),
            validators: StorageMap::new(),
            nominators: StorageMap::new(),
            stakers: StorageMap::new(),
            current_elected: Vec::new(),
            current_era: config.current_era,
            current_session_reward: config.current_session_reward,
            current_era_total_reward: config.current_era_total_reward,
            current_era_reward: 0,
            slot_stake: 0,
            slash_count: StorageMap::new(),
            recently_offline: Vec::new(),
            forcing_new_era: false,
            epoch_index: 0,
            equalize: config.equalize,
        }
    }

    /// The controller of `stash`, where it is bonded.
    pub fn bonded(&self, stash: AccountId) -> (r: Option<AccountId>)
        requires
            self.wf(),
        ensures
            r.is_some() == self@.bonded.contains_key(stash),
            r.is_some() ==> r.unwrap() == self@.bonded[stash],
    {
        match self.bonded.get(stash) {
            Some(c) => Some(*c),
            None => None,
        }
    }

    /// The ledger of `controller`, where it has one.
    pub fn ledger(&self, controller: AccountId) -> (r: Option<StakingLedger>)
        requires
            self.wf(),
        ensures
            r.is_some() == self@.ledger.contains_key(controller),
            r.is_some() ==> r.unwrap()@ == self@.ledger[controller],
    {
        match self.ledger.get(controller) {
            Some(l) => Some(l.duplicate()),
            None => None,
        }
    }

    /// The total balance that can be slashed from a validator as of right
    /// now: its total exposure.
    pub fn slashable_balance(&self, who: AccountId) -> (r: Balance)
        requires
            self.wf(),
        ensures
            r == self@.exposure_of(who).total,
    {
        match self.stakers.get(who) {
            Some(e) => e.total,
            None => 0,
        }
    }

    /// What the stash `stash` has at stake.
    pub fn slashable_balance_of(&self, stash: AccountId) -> (r: Balance)
        requires
            self.wf(),
        ensures
            r == self@.slashable_balance_of(stash),
    {
        match self.bonded.get(stash) {
            Some(controller) => match self.ledger.get(*controller) {
                Some(l) => l.total,
                None => 0,
            },
            None => 0,
        }
    }

    /// Update the ledger for a controller. This will also update the stash
    /// lock.
    fn update_ledger(&mut self, controller: AccountId, ledger: StakingLedger, currency: &mut kton::Module)
        requires
            old(self).stores_wf(),
            old(currency).wf(),
        ensures
            final(self).stores_wf(),
            final(currency).wf(),
            final(self)@ == old(self)@.with_ledger(controller, ledger@),
            final(currency)@ == relocked(old(currency)@, ledger.stash, ledger.total),
    {
        currency.set_lock(STAKING_ID, ledger.stash, ledger.total, u64::MAX, WithdrawReasons::all());
        self.ledger.insert(controller, ledger);
    }

    /// Bonds `stash` with `controller`, with `value` of its free balance at
    /// stake, or all of it where it holds less. The stake is locked, and the
    /// rewards go to `payee`.
    pub fn bond(
        &mut self,
        stash: AccountId,
        controller: AccountId,
        value: Balance,
        payee: RewardDestination,
        currency: &mut kton::Module,
    ) -> (r: Result<(), Error>)
        requires
            old(self).wf(),
            old(currency).wf(),
        ensures
            final(self).wf(),
            final(currency).wf(),
            r == if old(self)@.bonded.contains_key(stash) {
                Err::<(), Error>(Error::AlreadyBonded)
            } else if old(self)@.ledger.contains_key(controller) {
                Err::<(), Error>(Error::AlreadyPaired)
            } else {
                Ok::<(), Error>(())
            },
            r is Err ==> final(self)@ == old(self)@ && final(currency)@ == old(currency)@,
            r is Ok ==> {
                let staked = if value <= old(currency)@.free_balance(stash) {
                    value
                } else {
                    old(currency)@.free_balance(stash)
                };
                &&& final(self)@ == (State {
                    bonded: old(self)@.bonded.insert(stash, controller),
                    payee: old(self)@.payee.insert(stash, payee),
                    ledger: old(self)@.ledger.insert(
                        controller,
                        LedgerView { stash, total: staked, active: staked, unlocking: Seq::empty() },
                    ),
                    ..old(self)@
                })
                &&& final(currency)@ == relocked(old(currency)@, stash, staked)
            },
    {
        if self.bonded.contains_key(stash) {
            return Err(Error::AlreadyBonded);
        }
        if self.ledger.contains_key(controller) {
            return Err(Error::AlreadyPaired);
        }
        self.bonded.insert(stash, controller);
        self.payee.insert(stash, payee);
        let stash_balance = currency.free_balance(stash);
        let value = if value <= stash_balance { value } else { stash_balance };
        let item = StakingLedger { stash, total: value, active: value, unlocking: Vec::new() };
        self.update_ledger(controller, item, currency);
        Ok(())
    }

    /// Adds up to `max_additional` of what `stash` holds free beyond its
    /// stake to the stake.
    pub fn bond_extra(&mut self, stash: AccountId, max_additional: Balance, currency: &mut kton::Module) -> (r:
        Result<(), Error>)
        requires
            old(self).wf(),
            old(currency).wf(),
        ensures
            final(self).wf(),
            final(currency).wf(),
            r == if !old(self)@.bonded.contains_key(stash) {
                Err::<(), Error>(Error::NotStash)
            } else {
                Ok::<(), Error>(())
            },
            r is Err ==> final(self)@ == old(self)@ && final(currency)@ == old(currency)@,
            r is Ok ==> {
                let controller = old(self)@.bonded[stash];
                let ledger = old(self)@.ledger[controller];
                if old(currency)@.free_balance(stash) < ledger.total {
                    final(self)@ == old(self)@ && final(currency)@ == old(currency)@
                } else {
                    let grown = ledger.bonded_extra(
                        ledger.extra(old(currency)@.free_balance(stash), max_additional),
                    );
                    &&& final(self)@ == old(self)@.with_ledger(controller, grown)
                    &&& final(currency)@ == relocked(old(currency)@, stash, grown.total)
                }
            },
    {
        let controller = match self.bonded(stash) {
            Some(c) => c,
            None => return Err(Error::NotStash),
        };
        let mut ledger = match self.ledger(controller) {
            Some(l) => l,
            None => return Err(Error::NotController),
        };
        let stash_balance = currency.free_balance(stash);
        match stash_balance.checked_sub(ledger.total) {
            Some(extra) => {
                let extra = if extra <= max_additional { extra } else { max_additional };
                proof {
                    lemma_chunks_nonnegative(ledger.unlocking@);
                }
                ledger.total = ledger.total + extra;
                ledger.active = ledger.active + extra;
                self.update_ledger(controller, ledger, currency);
            },
            None => {},
        }
        Ok(())
    }

    /// Takes `value` out of the active stake of the ledger of `controller`,
    /// or what is active where that is less, and all that is active where
    /// less than the minimum balance would stay. It waits in a new chunk for
    /// the era that lies the bonding duration ahead.
    pub fn unbond(&mut self, controller: AccountId, value: Balance, currency: &mut kton::Module) -> (r: Result<
        (),
        Error,
    >)
        requires
            old(self).wf(),
            old(currency).wf(),
        ensures
            final(self).wf(),
            final(currency).wf(),
            r == if !old(self)@.ledger.contains_key(controller) {
                Err::<(), Error>(Error::NotController)
            } else if old(self)@.ledger[controller].unlocking.len() >= MAX_UNLOCKING_CHUNKS {
                Err::<(), Error>(Error::NoMoreChunks)
            } else {
                Ok::<(), Error>(())
            },
            r is Err ==> final(self)@ == old(self)@ && final(currency)@ == old(currency)@,
            r is Ok ==> {
                let ledger = old(self)@.ledger[controller];
                if value == 0 || ledger.active == 0 {
                    final(self)@ == old(self)@ && final(currency)@ == old(currency)@
                } else {
                    &&& final(self)@ == old(self)@.with_ledger(
                        controller,
                        ledger.unbonded(
                            value,
                            old(currency)@.minimum_balance,
                            unlock_era(old(self)@.current_era, old(self)@.bonding_duration),
                        ),
                    )
                    &&& final(currency)@ == relocked(old(currency)@, ledger.stash, ledger.total)
                }
            },
    {
        let mut ledger = match self.ledger(controller) {
            Some(l) => l,
            None => return Err(Error::NotController),
        };
        if ledger.unlocking.len() >= MAX_UNLOCKING_CHUNKS {
            return Err(Error::NoMoreChunks);
        }
        let mut value = if value <= ledger.active { value } else { ledger.active };
        if value != 0 {
            let ghost before = ledger@;
            ledger.active = ledger.active - value;
            if ledger.active < currency.minimum_balance() {
                value = value + ledger.active;
                ledger.active = 0;
            }
            let era = self.current_era.saturating_add(self.bonding_duration);
            ledger.unlocking.push(UnlockChunk { value, era });
            proof {
                assert(ledger.unlocking@.drop_last() =~= before.unlocking);
            }
            self.update_ledger(controller, ledger, currency);
        }
        Ok(())
    }

    /// Takes the chunks that are unlocked in the current era out of the
    /// ledger of `controller`, and their funds out of the lock.
    pub fn withdraw_unbonded(&mut self, controller: AccountId, currency: &mut kton::Module) -> (r: Result<
        (),
        Error,
    >)
        requires
            old(self).wf(),
            old(currency).wf(),
        ensures
            final(self).wf(),
            final(currency).wf(),
            r == if !old(self)@.ledger.contains_key(controller) {
                Err::<(), Error>(Error::NotController)
            } else {
                Ok::<(), Error>(())
            },
            r is Err ==> final(self)@ == old(self)@ && final(currency)@ == old(currency)@,
            r is Ok ==> {
                let ledger = old(self)@.ledger[controller].consolidated(old(self)@.current_era);
                &&& final(self)@ == old(self)@.with_ledger(controller, ledger)
                &&& final(currency)@ == relocked(old(currency)@, ledger.stash, ledger.total)
            },
    {
        let ledger = match self.ledger(controller) {
            Some(l) => l,
            None => return Err(Error::NotController),
        };
        let ledger = ledger.consolidate_unlocked(self.current_era);
        self.update_ledger(controller, ledger, currency);
        Ok(())
    }

    /// Declares that the stash of `controller` wants to validate, on the
    /// terms of `prefs`. It no longer nominates.
    pub fn validate(&mut self, controller: AccountId, prefs: ValidatorPrefs) -> (r: Result<(), Error>)
        requires
            old(self).wf(),
        ensures
            final(self).wf(),
            r == if !old(self)@.ledger.contains_key(controller) {
                Err::<(), Error>(Error::NotController)
            } else if prefs.unstake_threshold > MAX_UNSTAKE_THRESHOLD {
                Err::<(), Error>(Error::UnstakeThresholdTooLarge)
            } else {
                Ok::<(), Error>(())
            },
            r is Err ==> final(self)@ == old(self)@,
            r is Ok ==> final(self)@ == (State {
                nominators: old(self)@.nominators.remove(old(self)@.ledger[controller].stash),
                validators: old(self)@.validators.insert(old(self)@.ledger[controller].stash, prefs@),
                ..old(self)@
            }),
    {
        let stash = match self.ledger.get(controller) {
            Some(l) => l.stash,
            None => return Err(Error::NotController),
        };
        if prefs.unstake_threshold > MAX_UNSTAKE_THRESHOLD {
            return Err(Error::UnstakeThresholdTooLarge);
        }
        self.nominators.remove(stash);
        self.validators.insert(stash, prefs);
        Ok(())
    }

    /// Declares that the stash of `controller` nominates the first of
    /// `targets`, as many as a nominator may name. It no longer validates.
    pub fn nominate(&mut self, controller: AccountId, targets: Vec<AccountId>) -> (r: Result<(), Error>)
        requires
            old(self).wf(),
        ensures
            final(self).wf(),
            r == if !old(self)@.ledger.contains_key(controller) {
                Err::<(), Error>(Error::NotController)
            } else if targets@.len() == 0 {
                Err::<(), Error>(Error::EmptyTargets)
            } else {
                Ok::<(), Error>(())
            },
            r is Err ==> final(self)@ == old(self)@,
            r is Ok ==> final(self)@ == (State {
                validators: old(self)@.validators.remove(old(self)@.ledger[controller].stash),
                nominators: old(self)@.nominators.insert(
                    old(self)@.ledger[controller].stash,
                    if targets@.len() <= MAX_NOMINATIONS {
                        targets@
                    } else {
                        targets@.take(MAX_NOMINATIONS as int)
                    },
                ),
                ..old(self)@
            }),
    {
        let stash = match self.ledger.get(controller) {
            Some(l) => l.stash,
            None => return Err(Error::NotController),
        };
        if targets.len() == 0 {
            return Err(Error::EmptyTargets);
        }
        let mut targets = targets;
        if targets.len() > MAX_NOMINATIONS {
            targets.truncate(MAX_NOMINATIONS);
        }
        self.validators.remove(stash);
        self.nominators.insert(stash, targets);
        Ok(())
    }

    /// Declares that the stash of `controller` neither validates nor
    /// nominates.
    pub fn chill(&mut self, controller: AccountId) -> (r: Result<(), Error>)
        requires
            old(self).wf(),
        ensures
            final(self).wf(),
            r == if !old(self)@.ledger.contains_key(controller) {
                Err::<(), Error>(Error::NotController)
            } else {
                Ok::<(), Error>(())
            },
            r is Err ==> final(self)@ == old(self)@,
            r is Ok ==> final(self)@ == (State {
                validators: old(self)@.validators.remove(old(self)@.ledger[controller].stash),
                nominators: old(self)@.nominators.remove(old(self)@.ledger[controller].stash),
                ..old(self)@
            }),
    {
        let stash = match self.ledger.get(controller) {
            Some(l) => l.stash,
            None => return Err(Error::NotController),
        };
        self.validators.remove(stash);
        self.nominators.remove(stash);
        Ok(())
    }

    /// Sends the rewards of the stash of `controller` to `payee`.
    pub fn set_payee(&mut self, controller: AccountId, payee: RewardDestination) -> (r: Result<(), Error>)
        requires
            old(self).wf(),
        ensures
            final(self).wf(),
            r == if !old(self)@.ledger.contains_key(controller) {
                Err::<(), Error>(Error::NotController)
            } else {
                Ok::<(), Error>(())
            },
            r is Err ==> final(self)@ == old(self)@,
            r is Ok ==> final(self)@ == (State {
                payee: old(self)@.payee.insert(old(self)@.ledger[controller].stash, payee),
                ..old(self)@
            }),
    {
        let stash = match self.ledger.get(controller) {
            Some(l) => l.stash,
            None => return Err(Error::NotController),
        };
        self.payee.insert(stash, payee);
        Ok(())
    }

    /// Makes `controller` the controller of `stash`: the ledger moves to it.
    pub fn set_controller(&mut self, stash: AccountId, controller: AccountId) -> (r: Result<(), Error>)
        requires
            old(self).wf(),
        ensures
            final(self).wf(),
            r == if !old(self)@.bonded.contains_key(stash) {
                Err::<(), Error>(Error::NotStash)
            } else if old(self)@.ledger.contains_key(controller) {
                Err::<(), Error>(Error::AlreadyPaired)
            } else {
                Ok::<(), Error>(())
            },
            r is Err ==> final(self)@ == old(self)@,
            r is Ok ==> final(self)@ == (State {
                bonded: old(self)@.bonded.insert(stash, controller),
                ledger: old(self)@.ledger.remove(old(self)@.bonded[stash]).insert(
                    controller,
                    old(self)@.ledger[old(self)@.bonded[stash]],
                ),
                ..old(self)@
            }),
    {
        let old_controller = match self.bonded(stash) {
            Some(c) => c,
            None => return Err(Error::NotStash),
        };
        if self.ledger.contains_key(controller) {
            return Err(Error::AlreadyPaired);
        }
        if controller != old_controller {
            self.bonded.insert(stash, controller);
            match self.ledger.remove(old_controller) {
                Some(l) => {
                    self.ledger.insert(controller, l);
                },
                None => {},
            }
        }
        Ok(())
    }

    /// The ideal number of validators.
    pub fn set_validator_count(&mut self, new: u32)
        requires
            old(self).wf(),
        ensures
            final(self).wf(),
            final(self)@ == (State { validator_count: new, ..old(self)@ }),
    {
        self.validator_count = new;
    }

    /// Makes the next session the last of its era, whatever its index.
    pub fn force_new_era(&mut self)
        requires
            old(self).wf(),
        ensures
            final(self).wf(),
            final(self)@ == (State { forcing_new_era: true, ..old(self)@ }),
    {
        self.apply_force_new_era()
    }

    fn apply_force_new_era(&mut self)
        requires
            old(self).wf(),
        ensures
            final(self).wf(),
            final(self)@ == (State { forcing_new_era: true, ..old(self)@ }),
    {
        self.forcing_new_era = true;
    }

    /// Set the offline slash grace period.
    pub fn set_offline_slash_grace(&mut self, new: u32)
        requires
            old(self).wf(),
        ensures
            final(self).wf(),
            final(self)@ == (State { offline_slash_grace: new, ..old(self)@ }),
    {
        self.offline_slash_grace = new;
    }

    /// Set the validators who cannot be slashed (if any).
    pub fn set_invulnerables(&mut self, validators: Vec<AccountId>)
        requires
            old(self).wf(),
        ensures
            final(self).wf(),
            final(self)@ == (State { invulnerables: validators@, ..old(self)@ }),
    {
        self.invulnerables = validators;
    }

    /// Forgets `stash`, whose balance has come to nothing: its bond and
    /// ledger, its payee, its slash count, and what it declared.
    pub fn on_free_balance_zero(&mut self, stash: AccountId)
        requires
            old(self).wf(),
        ensures
            final(self).wf(),
            final(self)@ == (State {
                bonded: old(self)@.bonded.remove(stash),
                ledger: if old(self)@.bonded.contains_key(stash) {
                    old(self)@.ledger.remove(old(self)@.bonded[stash])
                } else {
                    old(self)@.ledger
                },
                payee: old(self)@.payee.remove(stash),
                slash_count: old(self)@.slash_count.remove(stash),
                validators: old(self)@.validators.remove(stash),
                nominators: old(self)@.nominators.remove(stash),
                ..old(self)@
            }),
    {
        match self.bonded.remove(stash) {
            Some(controller) => {
                self.ledger.remove(controller);
            },
            None => {},
        }
        self.payee.remove(stash);
        self.slash_count.remove(stash);
        self.validators.remove(stash);
        self.nominators.remove(stash);
    }

    /// The ideal number of staking participants.
    pub fn validator_count(&self) -> (r: u32)
        ensures
            r == self@.validator_count,
    {
        self.validator_count
    }

    /// Minimum number of staking participants before emergency conditions
    /// are imposed.
    pub fn minimum_validator_count(&self) -> (r: u32)
        ensures
            r == self@.minimum_validator_count,
    {
        self.minimum_validator_count
    }

    /// Number of instances of offline reports before slashing begins for
    /// validators.
    pub fn offline_slash_grace(&self) -> (r: u32)
        ensures
            r == self@.offline_slash_grace,
    {
        self.offline_slash_grace
    }

    /// The validators that may never be slashed or forcibly kicked.
    pub fn invulnerables(&self) -> (r: Vec<AccountId>)
        ensures
            r@ == self@.invulnerables,
    {
        copy_accounts(&self.invulnerables)
    }

    /// Where the rewards of `stash` go.
    pub fn payee(&self, stash: AccountId) -> (r: RewardDestination)
        requires
            self.wf(),
        ensures
            r == self@.payee_of(stash),
    {
        match self.payee.get(stash) {
            Some(p) => *p,
            None => RewardDestination::Stash,
        }
    }

    /// The preferences of the validator `stash`, where it has declared any.
    pub fn validators(&self, stash: AccountId) -> (r: Option<ValidatorPrefs>)
        requires
            self.wf(),
        ensures
            r.is_some() == self@.validators.contains_key(stash),
            r.is_some() ==> r.unwrap()@ == self@.validators[stash],
    {
        match self.validators.get(stash) {
            Some(p) => Some(
                ValidatorPrefs {
                    unstake_threshold: p.unstake_threshold,
                    validator_payment: p.validator_payment,
                    name: p.name.clone(),
                },
            ),
            None => None,
        }
    }

    /// What the validator `stash` takes of a reward up-front.
    pub fn validator_payment(&self, stash: AccountId) -> (r: Balance)
        requires
            self.wf(),
        ensures
            r == self@.prefs_of(stash).validator_payment,
    {
        match self.validators.get(stash) {
            Some(p) => p.validator_payment,
            None => 0,
        }
    }

    /// The unstake threshold of the validator `stash`.
    pub fn unstake_threshold(&self, stash: AccountId) -> (r: u32)
        requires
            self.wf(),
        ensures
            r == self@.prefs_of(stash).unstake_threshold,
    {
        match self.validators.get(stash) {
            Some(p) => p.unstake_threshold,
            None => 3,
        }
    }

    /// The validators that `stash` nominates: none where it does not
    /// nominate.
    pub fn nominators(&self, stash: AccountId) -> (r: Vec<AccountId>)
        requires
            self.wf(),
        ensures
            r@ == if self@.nominators.contains_key(stash) {
                self@.nominators[stash]
            } else {
                Seq::empty()
            },
    {
        match self.nominators.get(stash) {
            Some(t) => copy_accounts(t),
            None => Vec::new(),
        }
    }

    /// The exposure of the elected validator `stash`: none where it is not
    /// elected.
    pub fn stakers(&self, stash: AccountId) -> (r: Exposure)
        requires
            self.wf(),
        ensures
            r@ == self@.exposure_of(stash),
    {
        match self.stakers.get(stash) {
            Some(e) => e.duplicate(),
            None => Exposure::default(),
        }
    }

    /// The currently elected validator set, by stash.
    pub fn current_elected(&self) -> (r: Vec<AccountId>)
        ensures
            r@ == self@.current_elected,
    {
        copy_accounts(&self.current_elected)
    }

    /// The current era index.
    pub fn current_era(&self) -> (r: EraIndex)
        ensures
            r == self@.current_era,
    {
        self.current_era
    }

    /// What the sessions of this era have added up to.
    pub fn current_era_reward(&self) -> (r: Balance)
        ensures
            r == self@.current_era_reward,
    {
        self.current_era_reward
    }

    /// The reward budget of an era.
    pub fn current_era_total_reward(&self) -> (r: Balance)
        ensures
            r == self@.current_era_total_reward,
    {
        self.current_era_total_reward
    }

    /// What a finished session adds to the reward of its era.
    pub fn current_session_reward(&self) -> (r: Balance)
        ensures
            r == self@.current_session_reward,
    {
        self.current_session_reward
    }

    /// The amount of balance actively at stake for each validator slot,
    /// currently.
    pub fn slot_stake(&self) -> (r: Balance)
        ensures
            r == self@.slot_stake,
    {
        self.slot_stake
    }

    /// The number of times a given validator has been reported offline.
    pub fn slash_count(&self, stash: AccountId) -> (r: u32)
        requires
            self.wf(),
        ensures
            r == self@.slash_count_of(stash),
    {
        match self.slash_count.get(stash) {
            Some(c) => *c,
            None => 0,
        }
    }

    /// The latest reports of offline validators: who it was, when it was
    /// reported, how many instances they were offline for.
    pub fn recently_offline(&self) -> (r: Vec<(AccountId, BlockNumber, u32)>)
        ensures
            r@ == self@.recently_offline,
    {
        let mut out: Vec<(AccountId, BlockNumber, u32)> = Vec::new();
        let mut i: usize = 0;
        while i < self.recently_offline.len()
            invariant
                i <= self.recently_offline.len(),
                out@ == self.recently_offline@.take(i as int),
            decreases self.recently_offline.len() - i,
        {
            out.push(self.recently_offline[i]);
            assert(out@ =~= self.recently_offline@.take(i + 1));
            i += 1;
        }
        assert(self.recently_offline@.take(self.recently_offline@.len() as int) =~= self.recently_offline@);
        out
    }

    /// True if the next session change will be a new era regardless of
    /// index.
    pub fn forcing_new_era(&self) -> (r: bool)
        ensures
            r == self@.forcing_new_era,
    {
        self.forcing_new_era
    }

    /// How many epochs have begun.
    pub fn epoch_index(&self) -> (r: BlockNumber)
        ensures
            r == self@.epoch_index,
    {
        self.epoch_index
    }

    /// The offline slash rate of `exposure`, rounded down.
    pub(crate) fn offline_slash_base(&self, exposure: Balance) -> (r: Balance)
        requires
            self.wf(),
        ensures
            r as int == crate::perbill::parts_of(self@.offline_slash, exposure as int),
            r <= exposure,
    {
        self.offline_slash.mul_floor(exposure)
    }

    /// The validators that stand for election, in the order of their
    /// stashes, each with what it has at stake.
    pub(crate) fn candidates(&self) -> (r: Vec<Stake>)
        requires
            self.wf(),
        ensures
            r@ == self@.candidates(),
    {
        let mut out: Vec<Stake> = Vec::new();
        let n = self.validators.len();
        proof {
            self.validators.lemma_keys();
        }
        let mut i: usize = 0;
        while i < n
            invariant
                i <= n,
                self.wf(),
                n == self.validators.keys().len(),
                self.validators.keys() == ordered(self@.validators.dom()),
                out@.len() == i,
                forall|k: int| 0 <= k < i ==> #[trigger] out@[k] == self@.candidates()[k],
            decreases n - i,
        {
            let who = self.validators.key_at(i);
            out.push(Stake { who, stake: self.slashable_balance_of(who) });
            i += 1;
        }
        assert(out@ =~= self@.candidates());
        out
    }

    /// The nominators, in the order of their stashes, each with what it has
    /// at stake and whom it nominates.
    pub(crate) fn nominations(&self) -> (r: Vec<Nomination>)
        requires
            self.wf(),
        ensures
            nominations_view(r@) == self@.nominations(),
    {
        let mut out: Vec<Nomination> = Vec::new();
        let n = self.nominators.len();
        proof {
            self.nominators.lemma_keys();
        }
        let mut i: usize = 0;
        while i < n
            invariant
                i <= n,
                self.wf(),
                n == self.nominators.keys().len(),
                self.nominators.keys() == ordered(self@.nominators.dom()),
                out@.len() == i,
                forall|k: int| 0 <= k < i ==> (#[trigger] out@[k])@ == self@.nominations()[k],
            decreases n - i,
        {
            let who = self.nominators.key_at(i);
            let targets = copy_accounts(self.nominators.value_at(i));
            out.push(Nomination { who, stake: self.slashable_balance_of(who), targets });
            i += 1;
        }
        assert(nominations_view(out@) =~= self@.nominations());
        out
    }

    /// The controllers of `stashes`, in their order, with the account zero
    /// for a stash that has none.
    pub(crate) fn controllers_of(&self, stashes: &Vec<AccountId>) -> (r: Vec<AccountId>)
        requires
            self.wf(),
        ensures
            r@ == Seq::new(stashes@.len(), |i: int| self@.controller_of(stashes@[i])),
    {
        let mut out: Vec<AccountId> = Vec::new();
        let mut i: usize = 0;
        while i < stashes.len()
            invariant
                i <= stashes.len(),
                self.wf(),
                out@.len() == i,
                forall|k: int| 0 <= k < i ==> #[trigger] out@[k] == self@.controller_of(stashes@[k]),
            decreases stashes.len() - i,
        {
            let controller = match self.bonded(stashes[i]) {
                Some(c) => c,
                None => 0,
            };
            out.push(controller);
            i += 1;
        }
        assert(out@ =~= Seq::new(stashes@.len(), |i: int| self@.controller_of(stashes@[i])));
        out
    }

    /// Lets the slash counts of the elected validators decay by one, down to
    /// one.
    pub(crate) fn decay_slash_counts(&mut self)
        requires
            old(self).wf(),
        ensures
            final(self).wf(),
            final(self)@ == (State {
                slash_count: old(self)@.decayed(
                    old(self)@.current_elected,
                    old(self)@.current_elected.len() as int,
                ),
                ..old(self)@
            }),
    {
        let ghost before = self@;
        let mut i: usize = 0;
        while i < self.current_elected.len()
            invariant
                i <= self.current_elected.len(),
                self.wf(),
                before.wf(),
                self@ == (State {
                    slash_count: before.decayed(before.current_elected, i as int),
                    ..before
                }),
            decreases self.current_elected.len() - i,
        {
            let v = self.current_elected[i];
            let count = self.slash_count(v);
            if count > 1 {
                self.slash_count.insert(v, count - 1);
            }
            i += 1;
        }
    }

    /// Puts `elected` with `exposures` in place of the elected validators
    /// and their exposures, and `slot_stake` in place of the slot stake.
    pub(crate) fn enact(&mut self, elected: Vec<AccountId>, exposures: StorageMap<Exposure>, slot_stake: Balance)
        requires
            old(self).wf(),
            exposures.wf(),
            forall|s: AccountId| #[trigger] exposures@.contains_key(s) ==> exposures@[s].wf(),
            forall|s: AccountId| #[trigger] exposures@.contains_key(s) ==> elected@.contains(s),
        ensures
            final(self).wf(),
            final(self)@ == (State {
                stakers: exposures@,
                current_elected: elected@,
                slot_stake,
                ..old(self)@
            }),
    {
        self.stakers = exposures;
        self.current_elected = elected;
        self.slot_stake = slot_stake;
    }

    /// Adds the reward of a finished session to the reward of its era, which
    /// stays at the largest amount that can be expressed.
    pub(crate) fn accrue_session_reward(&mut self)
        requires
            old(self).wf(),
        ensures
            final(self).wf(),
            final(self)@ == (State {
                current_era_reward: accrued(old(self)@.current_era_reward, old(self)@.current_session_reward),
                ..old(self)@
            }),
    {
        self.current_era_reward = self.current_era_reward.saturating_add(self.current_session_reward);
    }

    /// Says whether a new era is forced, and forces none any more.
    pub(crate) fn take_forcing(&mut self) -> (r: bool)
        requires
            old(self).wf(),
        ensures
            final(self).wf(),
            r == old(self)@.forcing_new_era,
            final(self)@ == (State { forcing_new_era: false, ..old(self)@ }),
    {
        let forced = self.forcing_new_era;
        self.forcing_new_era = false;
        forced
    }

    /// Starts the reward of the era anew.
    pub(crate) fn reset_era_reward(&mut self)
        requires
            old(self).wf(),
        ensures
            final(self).wf(),
            final(self)@ == (State { current_era_reward: 0, ..old(self)@ }),
    {
        self.current_era_reward = 0;
    }

    /// Begins a new epoch. `next_era_reward` is the reward budget that the
    /// reward curve gives for it, where it could compute one: it is the
    /// budget of an era from now on.
    pub fn new_epoch(&mut self, next_era_reward: Option<Balance>)
        requires
            old(self).wf(),
        ensures
            final(self).wf(),
            final(self)@ == (State {
                epoch_index: next_epoch(old(self)@.epoch_index),
                current_era_total_reward: match next_era_reward {
                    Some(budget) => budget,
                    None => old(self)@.current_era_total_reward,
                },
                ..old(self)@
            }),
    {
        self.epoch_index = self.epoch_index.saturating_add(1);
        match next_era_reward {
            Some(budget) => {
                self.current_era_total_reward = budget;
            },
            None => {},
        }
    }

    /// Counts one more era.
    pub(crate) fn begin_era(&mut self)
        requires
            old(self).wf(),
        ensures
            final(self).wf(),
            final(self)@ == (State { current_era: next_era(old(self)@.current_era), ..old(self)@ }),
    {
        self.current_era = self.current_era.saturating_add(1);
    }

    /// Whether the stakes of the nominators are equalized after an election.
    pub fn equalizes(&self) -> (r: bool)
        ensures
            r == self@.equalize,
    {
        self.equalize
    }

    /// Number of sessions per era.
    pub fn sessions_per_era(&self) -> (r: SessionIndex)
        requires
            self.wf(),
        ensures
            r == self@.sessions_per_era,
            r > 0,
    {
        self.sessions_per_era
    }

    /// Number of eras per epoch.
    pub fn eras_per_epoch(&self) -> (r: ErasNums)
        requires
            self.wf(),
        ensures
            r == self@.eras_per_epoch,
            r > 0,
    {
        self.eras_per_epoch
    }

    /// Number of eras that staked funds must remain bonded for.
    pub fn bonding_duration(&self) -> (r: EraIndex)
        ensures
            r == self@.bonding_duration,
    {
        self.bonding_duration
    }

    /// Sets how often `stash` was reported offline.
    pub(crate) fn set_slash_count(&mut self, stash: AccountId, count: u32)
        requires
            old(self).wf(),
        ensures
            final(self).wf(),
            final(self)@ == (State { slash_count: old(self)@.slash_count.insert(stash, count), ..old(self)@ }),
    {
        self.slash_count.insert(stash, count);
    }

    /// Keeps the report that `stash` was offline `count` times at block
    /// `block`: in place of the oldest report, where as many are kept as may
    /// be.
    pub(crate) fn record_offline(&mut self, stash: AccountId, block: BlockNumber, count: u32)
        requires
            old(self).wf(),
        ensures
            final(self).wf(),
            final(self)@ == (State {
                recently_offline: recorded(old(self)@.recently_offline, (stash, block, count)),
                ..old(self)@
            }),
    {
        let item = (stash, block, count);
        if self.recently_offline.len() >= RECENT_OFFLINE_COUNT {
            let mut index: usize = 0;
            let mut i: usize = 1;
            while i < self.recently_offline.len()
                invariant
                    1 <= i <= self.recently_offline.len(),
                    index < i,
                    index as int == oldest(self.recently_offline@, i as int),
                decreases self.recently_offline.len() - i,
            {
                if self.recently_offline[i].1 < self.recently_offline[index].1 {
                    index = i;
                }
                i += 1;
            }
            self.recently_offline[index] = item;
        } else {
            self.recently_offline.push(item);
        }
    }

    /// Takes `stash` out of the validators.
    pub(crate) fn remove_validator(&mut self, stash: AccountId)
        requires
            old(self).wf(),
        ensures
            final(self).wf(),
            final(self)@ == (State { validators: old(self)@.validators.remove(stash), ..old(self)@ }),
    {
        self.validators.remove(stash);
    }
}

/// The reward of an era once a session has added `session_reward` to it.
pub open spec fn accrued(era_reward: Balance, session_reward: Balance) -> Balance {
    if era_reward + session_reward > u64::MAX {
        u64::MAX
    } else {
        (era_reward + session_reward) as Balance
    }
}

/// The epoch after `epoch`, as far as epochs can be counted.
pub open spec fn next_epoch(epoch: BlockNumber) -> BlockNumber {
    if epoch == u64::MAX {
        epoch
    } else {
        (epoch + 1) as BlockNumber
    }
}

/// The era after `era`, as far as eras can be counted.
pub open spec fn next_era(era: EraIndex) -> EraIndex {
    if era == u32::MAX {
        era
    } else {
        (era + 1) as EraIndex
    }
}

/// The place of the oldest among the first `n` of `reports`: of the first of
/// them, where several are as old.
pub open spec fn oldest(reports: Seq<(AccountId, BlockNumber, u32)>, n: int) -> int
    decreases n,
{
    if n <= 1 {
        0
    } else if reports[n - 1].1 < reports[oldest(reports, n - 1)].1 {
        n - 1
    } else {
        oldest(reports, n - 1)
    }
}

/// The reports with `item` kept as well: in place of the oldest, where as
/// many are kept as may be, and else last.
pub open spec fn recorded(reports: Seq<(AccountId, BlockNumber, u32)>, item: (AccountId, BlockNumber, u32)) -> Seq<
    (AccountId, BlockNumber, u32),
> {
    if reports.len() >= RECENT_OFFLINE_COUNT {
        reports.update(oldest(reports, reports.len() as int), item)
    } else {
        reports.push(item)
    }
}

/// To withdraw what is unbonded twice in a row, with no era between, is to
/// withdraw it once: the second time neither the module nor the currency
/// changes.
pub proof fn lemma_withdraw_unbonded_twice(state: State, currency: kton::State, controller: AccountId)
    requires
        state.ledger.contains_key(controller),
    ensures
        ({
            let first = state.ledger[controller].consolidated(state.current_era);
            let once = state.with_ledger(controller, first);
            let locked = relocked(currency, first.stash, first.total);
            let second = once.ledger[controller].consolidated(once.current_era);
            &&& once.with_ledger(controller, second) == once
            &&& relocked(locked, second.stash, second.total) == locked
        }),
{
    let first = state.ledger[controller].consolidated(state.current_era);
    let once = state.with_ledger(controller, first);
    let locked = relocked(currency, first.stash, first.total);
    crate::ledger::lemma_consolidated_twice(state.ledger[controller], state.current_era);
    let second = once.ledger[controller].consolidated(once.current_era);
    assert(second == first);
    assert(once.ledger.insert(controller, second) =~= once.ledger);
    crate::kton::lemma_set_lock_twice(
        currency.locks_of(first.stash),
        staking_lock(first.total),
        currency.block_number,
    );
    assert(locked.locks.insert(
        first.stash,
        locks_after_set(locked.locks_of(first.stash), staking_lock(first.total), locked.block_number),
    ) =~= locked.locks);
}

/// The era in which what is unbonded in era `current_era` is unlocked, held
/// at the last era that can be counted.
pub open spec fn unlock_era(current_era: EraIndex, bonding_duration: EraIndex) -> EraIndex {
    if current_era + bonding_duration > u32::MAX {
        u32::MAX
    } else {
        (current_era + bonding_duration) as EraIndex
    }
}

} // verus!
