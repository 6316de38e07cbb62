//! The plain types that every component shares.

use vstd::prelude::*;

verus! {

/// An account, by its identifier. Accounts are ordered by it.
pub type AccountId = u64;

/// An amount of funds.
pub type Balance = u64;

/// The wide type in which stakes are multiplied by ratios.
pub type ExtendedBalance = u128;

/// The height of a block.
pub type BlockNumber = u64;

/// Counter for the number of eras that have passed.
pub type EraIndex = u32;

/// Counter for the number of eras per epoch.
pub type ErasNums = u32;

/// Counter for the sessions that have passed.
pub type SessionIndex = u32;

} // verus!
