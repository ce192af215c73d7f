//! Key derivation for per-epoch, per-user support records.
//!
//! An implementation may key its support ledger by a single value derived
//! from (epoch index, address) instead of by the composite pair.  The
//! ledger in this crate uses composite keys directly, so this derivation
//! is offered for callers that store records externally under one key.

use vstd::prelude::*;

use crate::Address;
use crate::Index;

verus! {

/// Derives a single storage key from an epoch index and an address.
pub struct Hasher {}

impl Hasher {
    /// The key for the support record of `address` at epoch `index`.
    pub fn hash(index: Index, address: Address) -> (key: u128)
        requires
            index + address <= u128::MAX,
        ensures
            key == index + address,
    {
        index as u128 + address
    }
}

} // verus!
