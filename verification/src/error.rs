//! Error kinds of the core operations. All are non-retryable: each one
//! reflects a caller or state precondition violation, and the failed
//! operation leaves the ledger untouched.

use vstd::prelude::*;

verus! {

/// Why a core operation refused to run.
#[derive(Clone, Copy, Debug, PartialEq, Eq, Structural)]
pub enum ContractError {
    /// The sender is not the configured admin.
    Unauthorized,
    /// A withdrawal asks for more shares than the owner holds, or the
    /// position addressed by a withdrawal does not exist.
    InsufficientFunds,
    /// No pool exists for the canonical pair key.
    PoolNotFound,
    /// A pool already exists for the canonical pair key.
    PoolAlreadyExists,
    /// Kept for callers that match on every historical kind; no core
    /// operation reports it.
    InvalidPoolRatio,
    /// A computed output or return amount is below the caller's minimum.
    SlippageExceeded,
    /// Genesis liquidity, or the number of minted shares, is below the floor.
    MinLiquidityNotMet,
    /// A required amount argument is zero.
    ZeroAmount,
    /// The two assets of a would-be pair are identical.
    InvalidTokenPair,
}

} // verus!
