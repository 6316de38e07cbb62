//! Proof-of-stake validator selection, reward distribution and slashing.
//!
//! Once per era the engine decides which accounts validate, how much stake
//! backs each of them, how the era's reward is split between validators and
//! their backers, and how penalties for misbehaviour are spread over a
//! validator's own stake and that of its backers.

pub mod equalize;
pub mod exposure;
pub mod invariants;
pub mod kton;
pub mod ledger;
pub mod lifecycle;
pub mod module;
pub mod perbill;
pub mod phragmen;
pub mod primitives;
pub mod registry;
pub mod rewards;
pub mod slashing;
pub mod store;
