//! Stake-accounting and reward-distribution engine for a proof-of-stake
//! validator node.
//!
//! The engine tracks delegated balances ("votes") from many users, accrues
//! the rewards a validator earns over time, and lets users and the validator
//! owner withdraw principal and rewards with a bounded amount of work per
//! call, however old the validator is.
//!
//! The boundary collaborators — the transport that carries requests, the
//! signature scheme that authenticates them, and the settlement facility
//! that actually moves tokens — stay outside this crate.  The engine takes
//! their verdicts as plain values (a signature verdict as a `bool`, a
//! settlement confirmation as the caller's decision to commit) and states
//! exactly what it does with them.

use vstd::prelude::*;

pub mod entities;
pub mod errors;
pub mod hasher;
pub mod indexes;
pub mod messages;
pub mod support;
pub mod validator;

verus! {

/// Token amount, in chain units.
pub type Value = u64;

/// Epoch counter: a validator-local index incremented once per reward event.
pub type Index = u32;

/// An address on the chain, as a plain number.
pub type Address = u128;

/// Numerator of the owner's share of each reward.
pub const VALIDATOR_SHARE_NUM: u64 = 3;

/// Denominator of the owner's share of each reward: the owner keeps
/// `VALIDATOR_SHARE_NUM / VALIDATOR_SHARE_DEN` of every reward.
pub const VALIDATOR_SHARE_DEN: u64 = 10;

/// Most epochs a single withdrawal call may process, so that one request
/// cannot consume unbounded resources.
pub const INDEX_MAX_DELTA: u32 = 1000;

} // verus!
