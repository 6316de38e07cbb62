//! What a staker has declared: where its rewards go, and on what terms it
//! validates.

use vstd::prelude::*;
use crate::primitives::{AccountId, Balance};

verus! {

/// The most validators that a nominator can nominate.
pub const MAX_NOMINATIONS: usize = 16;

/// The largest unstake threshold that a validator can ask for.
pub const MAX_UNSTAKE_THRESHOLD: u32 = 10;

/// A destination account for payment.
#[derive(Clone, Copy, PartialEq, Eq, Debug)]
pub enum RewardDestination {
    /// Pay into the stash account, increasing the amount at stake accordingly.
    StakedDeprecated,
    /// Pay into the stash account, not increasing the amount at stake.
    Stash,
    /// Pay into the controller account.
    Controller,
}

impl View for RewardDestination {
    type V = RewardDestination;

    open spec fn view(&self) -> RewardDestination {
        *self
    }
}

impl Default for RewardDestination {
    fn default() -> (r: RewardDestination)
        ensures
            r == RewardDestination::Stash,
    {
        RewardDestination::Stash
    }
}

/// Preference of what happens on a slash event.
#[derive(Clone, PartialEq, Eq, Debug)]
pub struct ValidatorPrefs {
    /// Validator should ensure this many more slashes than is necessary
    /// before being unstaked.
    pub unstake_threshold: u32,
    /// Reward that validator takes up-front; only the rest is split between
    /// themselves and nominators.
    pub validator_payment: Balance,
    /// The name that the validator goes by.
    pub name: Vec<u8>,
}

/// Preferences as a plain value.
pub ghost struct PrefsView {
    pub unstake_threshold: u32,
    pub validator_payment: Balance,
    pub name: Seq<u8>,
}

impl PrefsView {
    /// The preferences of a validator that has declared none.
    pub open spec fn default() -> PrefsView {
        PrefsView { unstake_threshold: 3, validator_payment: 0, name: Seq::new(8, |i: int| 0u8) }
    }
}

impl View for ValidatorPrefs {
    type V = PrefsView;

    open spec fn view(&self) -> PrefsView {
        PrefsView {
            unstake_threshold: self.unstake_threshold,
            validator_payment: self.validator_payment,
            name: self.name@,
        }
    }
}

impl Default for ValidatorPrefs {
    fn default() -> (r: ValidatorPrefs)
        ensures
            r@ == PrefsView::default(),
    {
        let mut name: Vec<u8> = Vec::new();
        let mut i: usize = 0;
        while i < 8
            invariant
                i <= 8,
                name@.len() == i,
                forall|k: int| 0 <= k < i ==> name@[k] == 0u8,
            decreases 8 - i,
        {
            name.push(0u8);
            i += 1;
        }
        assert(name@ =~= Seq::new(8, |i: int| 0u8));
        ValidatorPrefs { unstake_threshold: 3, validator_payment: 0, name }
    }
}

/// A copy of `v`.
pub fn copy_accounts(v: &Vec<AccountId>) -> (r: Vec<AccountId>)
    ensures
        r@ == v@,
{
    let mut out: Vec<AccountId> = Vec::new();
    let mut i: usize = 0;
    while i < v.len()
        invariant
            i <= v.len(),
            out@ == v@.take(i as int),
        decreases v.len() - i,
    {
        out.push(v[i]);
        assert(out@ =~= v@.take(i + 1));
        i += 1;
    }
    assert(v@.take(v@.len() as int) =~= v@);
    out
}

/// Whether `who` is one of `accounts`.
pub fn is_among(accounts: &Vec<AccountId>, who: AccountId) -> (r: bool)
    ensures
        r == accounts@.contains(who),
{
    let mut i: usize = 0;
    while i < accounts.len()
        invariant
            i <= accounts.len(),
            forall|k: int| 0 <= k < i ==> accounts@[k] != who,
        decreases accounts.len() - i,
    {
        if accounts[i] == who {
            return true;
        }
        i += 1;
    }
    false
}

} // verus!
