//! Integer square root, used once at pool genesis to price the initial
//! liquidity shares as the geometric mean of the two deposits.

use vstd::prelude::*;

verus! {

/// One Newton step `(x + n / x) / 2`, seeded at `x == n`, overshoots the
/// square root of `n` by strictly less than one: the step keeps
/// `(x + 1) * (x + 1) > n` invariant.
proof fn lemma_newton_step_upper_bound(n: int, x: int)
    requires
        n >= 0,
        x >= 1,
    ensures
        ((x + n / x) / 2 + 1) * ((x + n / x) / 2 + 1) > n,
{
    let q = n / x;
    let y = (x + q) / 2;
    assert(x * q + x > n && q >= 0) by (nonlinear_arith)
        requires
            n >= 0,
            x >= 1,
            q == n / x;
    assert(2 * y + 1 >= x + q) by (nonlinear_arith)
        requires
            x >= 1,
            q >= 0,
            y == (x + q) / 2;
    // (x + q + 1)^2 - 4 * x * (q + 1) == (x - q - 1)^2 >= 0, and
    // x * (q + 1) > n, so (2 * (y + 1))^2 >= (x + q + 1)^2 > 4 * n.
    assert((y + 1) * (y + 1) > n) by (nonlinear_arith)
        requires
            x * q + x > n,
            2 * y + 1 >= x + q,
            x >= 1,
            q >= 0,
            y >= 0;
}

/// Floor of the exact square root, by Newton's method on integers:
/// the unique `r` with `r * r <= n < (r + 1) * (r + 1)`.
///
/// Seeded at `y0 = (n + 1) / 2` and iterating `x <- y; y <- (x + n / x) / 2`
/// until `y >= x`, so the iterate stays an upper bound for the root and
/// strictly decreases until it lands on the floor.
pub fn isqrt(n: u128) -> (r: u128)
    requires
        n < u128::MAX,
    ensures
        r * r <= n,
        n < (r + 1) * (r + 1),
{
    if n == 0 {
        return 0;
    }
    let mut x: u128 = n;
    let mut y: u128 = (n + 1) / 2;
    proof {
        assert(n / n == 1 && n < (n + 1) * (n + 1)) by (nonlinear_arith)
            requires
                n >= 1;
    }
    while y < x
        invariant
            1 <= n < u128::MAX,
            1 <= x <= n,
            n < (x + 1) * (x + 1),
            y == ((x + n / x) / 2) as u128,
            y <= 0x7fff_ffff_ffff_ffff_ffff_ffff_ffff_ffffu128,
        decreases x,
    {
        proof {
            lemma_newton_step_upper_bound(n as int, x as int);
            // The next iterate is at least one: either `x == 1`, and then
            // `n / x == n >= 1`, or `x >= 2`.
            assert((x + n / x) / 2 >= 1) by (nonlinear_arith)
                requires
                    1 <= x,
                    1 <= n;
        }
        x = y;
        proof {
            // No overflow in `x + n / x`, and the next iterate stays below
            // 2^127: a large `x` has `x * x > n`, a small one is harmless.
            if x >= 0x1_0000_0000_0000_0000u128 {
                assert(n / x <= x - 1 && (x + n / x) / 2 <= x - 1) by (nonlinear_arith)
                    requires
                        x >= 0x1_0000_0000_0000_0000,
                        n < u128::MAX;
            } else {
                assert(x + n / x < 0x3_0000_0000_0000_0000 && (x + n / x) / 2 <= x + 1) by (nonlinear_arith)
                    requires
                        1 <= x < 0x1_0000_0000_0000_0000,
                        n < (x + 1) * (x + 1),
                        n >= 0;
            }
        }
        y = (x + n / x) / 2;
    }
    proof {
        // At exit `y >= x`, so `n / x >= x`, hence `x * x <= n`.
        assert(x * x <= n) by (nonlinear_arith)
            requires
                1 <= x,
                n >= 1,
                (x + n / x) / 2 >= x;
    }
    x
}

} // verus!
