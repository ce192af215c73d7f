//! The error taxonomy of the engine.

use vstd::prelude::*;

verus! {

/// Why an engine operation was refused.
///
/// Every refusal leaves the ledger exactly as it was; each operation's
/// contract says so, and says on which inputs each variant comes.
#[derive(Clone, Copy, Debug, PartialEq, Eq, Structural)]
pub enum EngineError {
    /// The signature check on the request failed.
    Unauthorized,
    /// The referenced support record does not exist.
    NoSuchSupport,
    /// The requested amount exceeds the support recorded at the given epoch.
    InsufficientSupport,
    /// The requested amount exceeds the owner's accrued reward.
    InsufficientFunds,
    /// The per-epoch ledger lacks data it should hold: an internal
    /// inconsistency, never a user error.
    EpochDataMissing,
    /// The external settlement facility refused the transfer.  The engine
    /// itself never returns this; the caller that runs the settlement uses
    /// it to report a refused or timed-out transfer.
    SettlementFailed,
}

} // verus!
