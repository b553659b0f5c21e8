//! User-facing views the query layer projects ledger state into.

use vstd::prelude::*;

use crate::state::Pool;

verus! {

/// A pool record, projected verbatim.
pub struct PoolInfo {
    pub token_a: String,
    pub token_b: String,
    pub reserve_a: u128,
    pub reserve_b: u128,
    pub total_liquidity: u128,
}

impl PoolInfo {
    /// Whether this view shows exactly the given pool record.
    pub open spec fn shows(self, p: Pool) -> bool {
        &&& self.token_a@ == p.token_a@
        &&& self.token_b@ == p.token_b@
        &&& self.reserve_a == p.reserve_a
        &&& self.reserve_b == p.reserve_b
        &&& self.total_liquidity == p.total_liquidity
    }
}

/// One account's stake in one pool: the held shares and the rounded-down
/// amounts of both reserves those shares redeem for right now.
pub struct LiquidityInfo {
    pub liquidity: u128,
    pub share_a: u128,
    pub share_b: u128,
}

/// A priced would-be swap: the output it would pay, the fee it would
/// withhold, and the relative move of the marginal price in basis points,
/// direction discarded.
pub struct SimulationResponse {
    pub amount_out: u128,
    pub fee: u128,
    pub price_impact_bps: u128,
}

} // verus!
