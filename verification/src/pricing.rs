//! Pure swap pricing: the constant-product formula with a proportional fee.
//!
//! Both the state-mutating swap and the read-only simulation price through
//! this one function, so a simulated price and an executed price are the same
//! computation on the same inputs. Every division rounds down: the fee
//! rounding favours the trader, the output rounding favours the pool.

use vstd::prelude::*;

verus! {

/// The fee denominator: rates are in basis points.
pub const FEE_DENOMINATOR: u128 = 10000;

/// Input left after the proportional fee is taken, rounded down.
pub open spec fn spec_after_fee(amount_in: u128, fee_rate: u128) -> int {
    amount_in * (10000 - fee_rate) / 10000
}

/// The fee withheld from the input.
pub open spec fn spec_fee(amount_in: u128, fee_rate: u128) -> int {
    amount_in - spec_after_fee(amount_in, fee_rate)
}

/// Constant-product output for the post-fee input: the exact solution of
/// `(reserve_in + in') * (reserve_out - out) >= reserve_in * reserve_out`,
/// rounded down.
pub open spec fn spec_amount_out(
    reserve_in: u128,
    reserve_out: u128,
    amount_in: u128,
    fee_rate: u128,
) -> int {
    spec_after_fee(amount_in, fee_rate) * reserve_out / (reserve_in + spec_after_fee(
        amount_in,
        fee_rate,
    ))
}

/// The post-fee input never exceeds the input.
pub proof fn lemma_after_fee_le(amount_in: u128, fee_rate: u128)
    requires
        fee_rate < 10000,
    ensures
        0 <= spec_after_fee(amount_in, fee_rate) <= amount_in,
        fee_rate == 0 ==> spec_after_fee(amount_in, fee_rate) == amount_in,
{
    assert(0 <= amount_in * (10000 - fee_rate) / 10000 <= amount_in && (fee_rate == 0
        ==> amount_in * (10000 - fee_rate) / 10000 == amount_in)) by (nonlinear_arith)
        requires
            fee_rate < 10000,
            amount_in >= 0;
}

/// Rounded-down fractions respect cross-multiplied ordering.
pub proof fn lemma_div_cross(n1: int, d1: int, n2: int, d2: int)
    requires
        0 <= n1,
        0 < d1,
        0 <= n2,
        0 < d2,
        n1 * d2 <= n2 * d1,
    ensures
        n1 / d1 <= n2 / d2,
{
    let q = n1 / d1;
    assert(q * d1 <= n1 && q >= 0) by (nonlinear_arith)
        requires
            0 <= n1,
            0 < d1,
            q == n1 / d1;
    assert(q * d2 <= n2) by (nonlinear_arith)
        requires
            q * d1 <= n1,
            n1 * d2 <= n2 * d1,
            0 < d1,
            0 < d2,
            0 <= n1,
            q >= 0;
    assert(q <= n2 / d2) by (nonlinear_arith)
        requires
            q * d2 <= n2,
            0 < d2,
            q >= 0;
}

/// The output is non-negative and, against live reserves, strictly below the
/// output reserve: the constant-product curve approaches the reserve
/// asymptotically and never reaches it.
pub proof fn lemma_amount_out_below_reserve(
    reserve_in: u128,
    reserve_out: u128,
    amount_in: u128,
    fee_rate: u128,
)
    requires
        reserve_in > 0,
        fee_rate < 10000,
    ensures
        0 <= spec_amount_out(reserve_in, reserve_out, amount_in, fee_rate),
        reserve_out > 0 ==> spec_amount_out(reserve_in, reserve_out, amount_in, fee_rate)
            < reserve_out,
        spec_amount_out(reserve_in, reserve_out, amount_in, fee_rate) <= reserve_out,
{
    lemma_after_fee_le(amount_in, fee_rate);
    let f = spec_after_fee(amount_in, fee_rate);
    assert(0 <= f * reserve_out / (reserve_in + f) && (reserve_out > 0 ==> f * reserve_out / (
    reserve_in + f) < reserve_out) && f * reserve_out / (reserve_in + f)
        <= reserve_out) by (nonlinear_arith)
        requires
            f >= 0,
            reserve_in > 0,
            reserve_out >= 0;
}

/// For fixed reserves and fee, the output never shrinks as the input grows.
/// This is the provable half of strict monotonicity: rounding down can hold
/// the output flat between two nearby inputs, so strictness fails on such
/// pairs, but the output never moves the wrong way.
pub proof fn lemma_amount_out_monotonic(
    reserve_in: u128,
    reserve_out: u128,
    amount_in_1: u128,
    amount_in_2: u128,
    fee_rate: u128,
)
    requires
        reserve_in > 0,
        fee_rate < 10000,
        amount_in_1 <= amount_in_2,
    ensures
        spec_amount_out(reserve_in, reserve_out, amount_in_1, fee_rate) <= spec_amount_out(
            reserve_in,
            reserve_out,
            amount_in_2,
            fee_rate,
        ),
{
    lemma_after_fee_le(amount_in_1, fee_rate);
    lemma_after_fee_le(amount_in_2, fee_rate);
    let f1 = spec_after_fee(amount_in_1, fee_rate);
    let f2 = spec_after_fee(amount_in_2, fee_rate);
    assert(amount_in_1 * (10000 - fee_rate) <= amount_in_2 * (10000 - fee_rate))
        by (nonlinear_arith)
        requires
            amount_in_1 <= amount_in_2,
            fee_rate < 10000;
    lemma_div_cross(
        amount_in_1 * (10000 - fee_rate),
        10000,
        amount_in_2 * (10000 - fee_rate),
        10000,
    );
    assert(f1 <= f2);
    assert(f1 * reserve_out * (reserve_in + f2) <= f2 * reserve_out * (reserve_in + f1))
        by (nonlinear_arith)
        requires
            0 <= f1 <= f2,
            reserve_in > 0,
            reserve_out >= 0;
    lemma_div_cross(f1 * reserve_out, reserve_in + f1, f2 * reserve_out, reserve_in + f2);
}

/// Price a swap: how much of the output asset a given input buys against the
/// given reserves, and the fee withheld. Pure: both the swap operation and
/// the read-only simulation call this, so preview and execution agree.
pub fn price_swap(reserve_in: u128, reserve_out: u128, amount_in: u128, fee_rate: u128) -> (r: (
    u128,
    u128,
))
    requires
        reserve_in > 0,
        fee_rate < 10000,
        amount_in * (10000 - fee_rate) <= u128::MAX,
        spec_after_fee(amount_in, fee_rate) * reserve_out <= u128::MAX,
        reserve_in + amount_in <= u128::MAX,
    ensures
        r.0 == spec_amount_out(reserve_in, reserve_out, amount_in, fee_rate),
        r.1 == spec_fee(amount_in, fee_rate),
        r.0 <= reserve_out,
        reserve_out > 0 ==> r.0 < reserve_out,
        r.1 <= amount_in,
{
    proof {
        lemma_after_fee_le(amount_in, fee_rate);
        lemma_amount_out_below_reserve(reserve_in, reserve_out, amount_in, fee_rate);
    }
    let amount_in_after_fee = amount_in * (FEE_DENOMINATOR - fee_rate) / FEE_DENOMINATOR;
    let amount_out = amount_in_after_fee * reserve_out / (reserve_in + amount_in_after_fee);
    let fee = amount_in - amount_in_after_fee;
    (amount_out, fee)
}

} // verus!
