//! The entity model: users and their delegation records.

use vstd::prelude::*;

use crate::Address;
use crate::Index;
use crate::Value;

verus! {

/// A holder of a spendable balance outside the validator.
#[derive(Clone, Copy, Debug, PartialEq, Eq, Structural)]
pub struct User {
    /// The user's address on the chain.
    pub address: Address,
    /// The user's balance outside the validator.
    pub balance: Value,
}

impl User {
    /// Makes a user with the given address and balance.
    pub fn new(address: Address, balance: Value) -> (u: User)
        ensures
            u.address == address,
            u.balance == balance,
    {
        User { address, balance }
    }
}

/// One user's currently open delegation to one validator, in the
/// single-slot view: the epoch it was filed at, its amount, and whether
/// its reward has already been withdrawn.
#[derive(Clone, Copy, Debug, PartialEq, Eq, Structural)]
pub struct Vote {
    /// The number of rewards already accrued at the time of voting.
    pub first_reward_id: Index,
    /// The delegated amount.
    pub amount: Value,
    /// Whether the reward for this vote has been withdrawn; such a vote
    /// only remains to be closed.
    pub reward_taken: bool,
}

impl Vote {
    /// A zero-amount vote whose reward is still unclaimed is never
    /// observable: it could neither pay a reward nor be closed.
    pub open spec fn is_observable(self) -> bool {
        self.amount > 0 || self.reward_taken
    }

    /// Opens a delegation of `amount` at reward count `first_reward_id`.
    pub fn open(first_reward_id: Index, amount: Value) -> (v: Vote)
        requires
            amount > 0,
        ensures
            v.first_reward_id == first_reward_id,
            v.amount == amount,
            !v.reward_taken,
            v.is_observable(),
    {
        Vote { first_reward_id, amount, reward_taken: false }
    }
}

} // verus!
