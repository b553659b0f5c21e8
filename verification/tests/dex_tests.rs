use dex_core::dex::DexState;
use dex_core::error::ContractError;
use dex_core::math::isqrt;
use dex_core::pricing::price_swap;
use dex_core::state::liquidity_key;
use dex_core::state::pool_key;

fn fresh(fee_rate: u128) -> DexState {
    DexState::new("admin".to_string(), fee_rate)
}

fn shares_sum(s: &DexState, token_a: &str, token_b: &str) -> u128 {
    let key = pool_key(token_a, token_b);
    let mut sum: u128 = 0;
    for e in s.positions.iter() {
        if e.token_a == key.0 && e.token_b == key.1 {
            sum += e.position.liquidity;
        }
    }
    sum
}

fn pool_state(s: &DexState, token_a: &str, token_b: &str) -> (u128, u128, u128) {
    let info = s.query_pool(token_a, token_b).expect("pool must exist");
    (info.reserve_a, info.reserve_b, info.total_liquidity)
}

#[test]
fn isqrt_samples() {
    assert_eq!(isqrt(0), 0);
    assert_eq!(isqrt(1), 1);
    assert_eq!(isqrt(2), 1);
    assert_eq!(isqrt(3), 1);
    assert_eq!(isqrt(4), 2);
    assert_eq!(isqrt(8), 2);
    assert_eq!(isqrt(9), 3);
    assert_eq!(isqrt(10), 3);
    assert_eq!(isqrt(15), 3);
    assert_eq!(isqrt(16), 4);
    assert_eq!(isqrt(17), 4);
    assert_eq!(isqrt(24), 4);
    assert_eq!(isqrt(25), 5);
    assert_eq!(isqrt(26), 5);
    assert_eq!(isqrt(4_000_000), 2000);
    assert_eq!(isqrt(999_999), 999);
    assert_eq!(isqrt(1_000_000_000_000), 1_000_000);
}

#[test]
fn isqrt_bounds_on_broad_sample() {
    let samples: [u128; 12] = [
        0,
        1,
        2,
        120,
        121,
        122,
        1u128 << 64,
        (1u128 << 64) - 1,
        (1u128 << 63) * (1u128 << 63),
        (1u128 << 63) * (1u128 << 63) - 1,
        u128::MAX - 1,
        12345678901234567890,
    ];
    for &n in samples.iter() {
        let r = isqrt(n);
        assert!(r.checked_mul(r).map(|sq| sq <= n).unwrap_or(false) || r == 0 && n == 0);
        match (r + 1).checked_mul(r + 1) {
            Some(next_sq) => assert!(n < next_sq),
            None => {}
        }
    }
}

#[test]
fn pool_key_orders_tokens() {
    assert_eq!(
        pool_key("uatom", "contract1"),
        ("contract1".to_string(), "uatom".to_string())
    );
    assert_eq!(
        pool_key("contract1", "uatom"),
        ("contract1".to_string(), "uatom".to_string())
    );
    assert_eq!(pool_key("abc", "abd"), ("abc".to_string(), "abd".to_string()));
    assert_eq!(pool_key("ab", "abc"), ("ab".to_string(), "abc".to_string()));
}

#[test]
fn liquidity_key_holds_owner_then_pair() {
    assert_eq!(
        liquidity_key("alice", "uatom", "contract1"),
        (
            "alice".to_string(),
            "contract1".to_string(),
            "uatom".to_string()
        )
    );
}

#[test]
fn create_pool_scenario() {
    let mut s = fresh(30);
    let alice = "alice".to_string();
    let minted = s
        .execute_create_pool(&alice, "tokena", "tokenb", 1000, 4000)
        .expect("create must succeed");
    assert_eq!(minted, 2000);
    assert_eq!(pool_state(&s, "tokena", "tokenb"), (1000, 4000, 2000));
    let li = s.query_liquidity(&alice, "tokena", "tokenb").unwrap();
    assert_eq!(li.liquidity, 2000);
    assert_eq!(li.share_a, 1000);
    assert_eq!(li.share_b, 4000);
}

#[test]
fn create_pool_rejects_zero_amount() {
    let mut s = fresh(30);
    let alice = "alice".to_string();
    let r = s.execute_create_pool(&alice, "tokena", "tokenb", 0, 4000);
    assert_eq!(r, Err(ContractError::ZeroAmount));
    let r = s.execute_create_pool(&alice, "tokena", "tokenb", 1000, 0);
    assert_eq!(r, Err(ContractError::ZeroAmount));
    assert!(s.query_pool("tokena", "tokenb").is_err());
}

#[test]
fn create_pool_rejects_identical_tokens() {
    let mut s = fresh(30);
    let alice = "alice".to_string();
    let r = s.execute_create_pool(&alice, "tokena", "tokena", 1000, 4000);
    assert_eq!(r, Err(ContractError::InvalidTokenPair));
}

#[test]
fn create_pool_rejects_existing_pair_in_either_order() {
    let mut s = fresh(30);
    let alice = "alice".to_string();
    s.execute_create_pool(&alice, "tokena", "tokenb", 1000, 4000)
        .unwrap();
    let r = s.execute_create_pool(&alice, "tokena", "tokenb", 1, 1);
    assert_eq!(r, Err(ContractError::PoolAlreadyExists));
    let r = s.execute_create_pool(&alice, "tokenb", "tokena", 1, 1);
    assert_eq!(r, Err(ContractError::PoolAlreadyExists));
}

#[test]
fn add_liquidity_balanced_scenario() {
    let mut s = fresh(30);
    let alice = "alice".to_string();
    let bob = "bob".to_string();
    s.execute_create_pool(&alice, "tokena", "tokenb", 1000, 4000)
        .unwrap();
    let minted = s
        .execute_add_liquidity(&bob, "tokena", "tokenb", 100, 400, 1)
        .expect("add must succeed");
    assert_eq!(minted, 200);
    assert_eq!(pool_state(&s, "tokena", "tokenb"), (1100, 4400, 2200));
    assert_eq!(shares_sum(&s, "tokena", "tokenb"), 2200);
}

#[test]
fn add_liquidity_imbalanced_mints_binding_side_and_keeps_both_amounts() {
    let mut s = fresh(30);
    let alice = "alice".to_string();
    s.execute_create_pool(&alice, "tokena", "tokenb", 1000, 4000)
        .unwrap();
    // 100 of a prices 200 shares, 100 of b prices only 50: the smaller wins,
    // and the full 100 of b still enters the reserve.
    let minted = s
        .execute_add_liquidity(&alice, "tokena", "tokenb", 100, 100, 1)
        .unwrap();
    assert_eq!(minted, 50);
    assert_eq!(pool_state(&s, "tokena", "tokenb"), (1100, 4100, 2050));
}

#[test]
fn create_pool_reversed_token_order_pairs_each_deposit_with_its_token() {
    let mut s = fresh(30);
    let alice = "alice".to_string();
    // The caller names the pair backwards: 4000 of "tokenb", 1000 of
    // "tokena". The canonical record must still hold 1000 of "tokena".
    let minted = s
        .execute_create_pool(&alice, "tokenb", "tokena", 4000, 1000)
        .unwrap();
    assert_eq!(minted, 2000);
    let info = s.query_pool("tokena", "tokenb").unwrap();
    assert_eq!(info.token_a, "tokena");
    assert_eq!(info.token_b, "tokenb");
    assert_eq!((info.reserve_a, info.reserve_b), (1000, 4000));
}

#[test]
fn add_liquidity_reversed_token_order_prices_each_amount_by_its_token() {
    let mut s = fresh(30);
    let alice = "alice".to_string();
    s.execute_create_pool(&alice, "tokena", "tokenb", 1000, 4000)
        .unwrap();
    // Backwards naming: 400 of "tokenb", 100 of "tokena" — the balanced
    // deposit, which must mint 200 shares, not the 800/50 of a mispairing.
    let minted = s
        .execute_add_liquidity(&alice, "tokenb", "tokena", 400, 100, 1)
        .unwrap();
    assert_eq!(minted, 200);
    assert_eq!(pool_state(&s, "tokena", "tokenb"), (1100, 4400, 2200));
    // An imbalanced deposit named backwards: 100 of "tokenb", 100 of
    // "tokena" against reserves (1100, 4400) — "tokenb" is the binding
    // side: 100 * 2200 / 4400 = 50.
    let minted = s
        .execute_add_liquidity(&alice, "tokenb", "tokena", 100, 100, 1)
        .unwrap();
    assert_eq!(minted, 50);
    assert_eq!(pool_state(&s, "tokena", "tokenb"), (1200, 4500, 2250));
}

#[test]
fn remove_liquidity_reversed_token_order_orients_minimums_and_payouts() {
    let mut s = fresh(30);
    let alice = "alice".to_string();
    s.execute_create_pool(&alice, "tokena", "tokenb", 1000, 4000)
        .unwrap();
    // Backwards naming: min of 2000 for "tokenb", min of 500 for "tokena".
    // Burning 1000 of 2000 shares pays (500, 2000), so this just passes —
    // and the payouts come back in the caller's order: "tokenb" first.
    let (out_b, out_a) = s
        .execute_remove_liquidity(&alice, "tokenb", "tokena", 1000, 2000, 500)
        .unwrap();
    assert_eq!((out_b, out_a), (2000, 500));
    assert_eq!(pool_state(&s, "tokena", "tokenb"), (500, 2000, 1000));
    // The same minimums, one unit higher on "tokenb": must fail.
    let r = s.execute_remove_liquidity(&alice, "tokenb", "tokena", 500, 1001, 0);
    assert_eq!(r, Err(ContractError::SlippageExceeded));
    assert_eq!(pool_state(&s, "tokena", "tokenb"), (500, 2000, 1000));
}

#[test]
fn add_liquidity_errors() {
    let mut s = fresh(30);
    let alice = "alice".to_string();
    let r = s.execute_add_liquidity(&alice, "tokena", "tokenb", 100, 400, 1);
    assert_eq!(r, Err(ContractError::PoolNotFound));
    s.execute_create_pool(&alice, "tokena", "tokenb", 1000, 4000)
        .unwrap();
    let r = s.execute_add_liquidity(&alice, "tokena", "tokenb", 100, 400, 201);
    assert_eq!(r, Err(ContractError::MinLiquidityNotMet));
    assert_eq!(pool_state(&s, "tokena", "tokenb"), (1000, 4000, 2000));
}

#[test]
fn swap_scenario_and_simulation_equivalence() {
    let mut s = fresh(30);
    let alice = "alice".to_string();
    s.execute_create_pool(&alice, "tokena", "tokenb", 1000, 4000)
        .unwrap();
    s.execute_add_liquidity(&alice, "tokena", "tokenb", 100, 400, 1)
        .unwrap();
    let sim = s.query_simulation("tokena", "tokenb", 110).unwrap();
    assert_eq!(sim.amount_out, 396);
    assert_eq!(sim.fee, 1);
    assert_eq!(sim.price_impact_bps, 1727);
    let (out, fee) = s.execute_swap("tokena", "tokenb", 110, 1).unwrap();
    assert_eq!((out, fee), (sim.amount_out, sim.fee));
    assert_eq!(pool_state(&s, "tokena", "tokenb"), (1210, 4004, 2200));
    assert_eq!(shares_sum(&s, "tokena", "tokenb"), 2200);
}

#[test]
fn swap_opposite_direction() {
    let mut s = fresh(0);
    let alice = "alice".to_string();
    s.execute_create_pool(&alice, "tokena", "tokenb", 1000, 4000)
        .unwrap();
    // Selling token b: input reserve is 4000, output reserve is 1000.
    let (out, fee) = s.execute_swap("tokenb", "tokena", 400, 1).unwrap();
    assert_eq!(fee, 0);
    assert_eq!(out, 400 * 1000 / 4400);
    assert_eq!(
        pool_state(&s, "tokena", "tokenb"),
        (1000 - 400 * 1000 / 4400, 4400, 2000)
    );
}

#[test]
fn swap_errors() {
    let mut s = fresh(30);
    let alice = "alice".to_string();
    let r = s.execute_swap("tokena", "tokenb", 0, 0);
    assert_eq!(r, Err(ContractError::ZeroAmount));
    let r = s.execute_swap("tokena", "tokenb", 10, 0);
    assert_eq!(r, Err(ContractError::PoolNotFound));
    s.execute_create_pool(&alice, "tokena", "tokenb", 1000, 4000)
        .unwrap();
    let r = s.execute_swap("tokena", "tokenb", 110, 397);
    assert_eq!(r, Err(ContractError::SlippageExceeded));
    assert_eq!(pool_state(&s, "tokena", "tokenb"), (1000, 4000, 2000));
}

#[test]
fn swap_output_monotone_and_below_reserve() {
    for fee_rate in [0u128, 30, 100, 9999] {
        let mut prev: u128 = 0;
        for amount_in in [1u128, 2, 3, 10, 100, 1000, 10_000, 1_000_000] {
            let (out, fee) = price_swap(1100, 4400, amount_in, fee_rate);
            assert!(out >= prev, "output shrank as input grew");
            assert!(out < 4400, "output must stay below the reserve");
            assert!(fee <= amount_in);
            prev = out;
        }
    }
}

#[test]
fn remove_liquidity_full_drain_scenario() {
    let mut s = fresh(30);
    let alice = "alice".to_string();
    s.execute_create_pool(&alice, "tokena", "tokenb", 1000, 4000)
        .unwrap();
    s.execute_add_liquidity(&alice, "tokena", "tokenb", 100, 400, 1)
        .unwrap();
    s.execute_swap("tokena", "tokenb", 110, 1).unwrap();
    let (out_a, out_b) = s
        .execute_remove_liquidity(&alice, "tokena", "tokenb", 2200, 0, 0)
        .expect("full removal must succeed");
    assert_eq!((out_a, out_b), (1210, 4004));
    assert_eq!(pool_state(&s, "tokena", "tokenb"), (0, 0, 0));
    assert_eq!(shares_sum(&s, "tokena", "tokenb"), 0);
}

#[test]
fn remove_liquidity_partial_rounds_down() {
    let mut s = fresh(30);
    let alice = "alice".to_string();
    s.execute_create_pool(&alice, "tokena", "tokenb", 1000, 3999)
        .unwrap();
    let total = pool_state(&s, "tokena", "tokenb").2;
    let (out_a, out_b) = s
        .execute_remove_liquidity(&alice, "tokena", "tokenb", 3, 0, 0)
        .unwrap();
    assert_eq!(out_a, 3 * 1000 / total);
    assert_eq!(out_b, 3 * 3999 / total);
    assert_eq!(
        pool_state(&s, "tokena", "tokenb"),
        (1000 - out_a, 3999 - out_b, total - 3)
    );
}

#[test]
fn remove_liquidity_errors_leave_state_alone() {
    let mut s = fresh(30);
    let alice = "alice".to_string();
    let bob = "bob".to_string();
    let r = s.execute_remove_liquidity(&alice, "tokena", "tokenb", 1, 0, 0);
    assert_eq!(r, Err(ContractError::PoolNotFound));
    s.execute_create_pool(&alice, "tokena", "tokenb", 1000, 4000)
        .unwrap();
    // No position for bob: fails like a missing pool.
    let r = s.execute_remove_liquidity(&bob, "tokena", "tokenb", 1, 0, 0);
    assert_eq!(r, Err(ContractError::PoolNotFound));
    // More shares than held: fails before any mutation.
    let r = s.execute_remove_liquidity(&alice, "tokena", "tokenb", 2001, 0, 0);
    assert_eq!(r, Err(ContractError::InsufficientFunds));
    // Minimum amounts too high.
    let r = s.execute_remove_liquidity(&alice, "tokena", "tokenb", 1000, 501, 0);
    assert_eq!(r, Err(ContractError::SlippageExceeded));
    assert_eq!(pool_state(&s, "tokena", "tokenb"), (1000, 4000, 2000));
    assert_eq!(shares_sum(&s, "tokena", "tokenb"), 2000);
}

#[test]
fn conservation_across_operation_sequences() {
    let mut s = fresh(30);
    let alice = "alice".to_string();
    let bob = "bob".to_string();
    s.execute_create_pool(&alice, "tokena", "tokenb", 1000, 4000)
        .unwrap();
    s.execute_create_pool(&bob, "tokena", "tokenc", 500, 500)
        .unwrap();
    let checks = |s: &DexState| {
        let (_, _, t1) = pool_state(s, "tokena", "tokenb");
        let (_, _, t2) = pool_state(s, "tokena", "tokenc");
        assert_eq!(shares_sum(s, "tokena", "tokenb"), t1);
        assert_eq!(shares_sum(s, "tokena", "tokenc"), t2);
    };
    checks(&s);
    s.execute_add_liquidity(&bob, "tokena", "tokenb", 50, 200, 1)
        .unwrap();
    checks(&s);
    s.execute_swap("tokena", "tokenb", 110, 1).unwrap();
    checks(&s);
    s.execute_add_liquidity(&alice, "tokena", "tokenc", 100, 100, 1)
        .unwrap();
    checks(&s);
    s.execute_remove_liquidity(&bob, "tokena", "tokenb", 40, 0, 0)
        .unwrap();
    checks(&s);
    s.execute_swap("tokenc", "tokena", 17, 0).unwrap();
    checks(&s);
    s.execute_remove_liquidity(&alice, "tokena", "tokenb", 2000, 0, 0)
        .unwrap();
    checks(&s);
}

#[test]
fn query_pools_pagination() {
    let mut s = fresh(30);
    let alice = "alice".to_string();
    s.execute_create_pool(&alice, "a1", "b1", 10, 10).unwrap();
    s.execute_create_pool(&alice, "a2", "b2", 20, 20).unwrap();
    s.execute_create_pool(&alice, "a3", "b3", 30, 30).unwrap();
    let all = s.query_pools(None, None);
    assert_eq!(all.len(), 3);
    assert_eq!(all[0].token_a, "a1");
    assert_eq!(all[1].token_a, "a2");
    assert_eq!(all[2].token_a, "a3");
    let page = s.query_pools(None, Some(2));
    assert_eq!(page.len(), 2);
    assert_eq!(page[0].token_a, "a1");
    assert_eq!(page[1].token_a, "a2");
    let capped = s.query_pools(None, Some(1000));
    assert_eq!(capped.len(), 3);
    // The exclusive bound is the key ("", s): any pool whose first token is
    // non-empty lies after it, so a start-after token lists everything.
    let after = s.query_pools(Some("a2".to_string()), None);
    assert_eq!(after.len(), 3);
}

#[test]
fn query_liquidity_missing_position_is_zero() {
    let mut s = fresh(30);
    let alice = "alice".to_string();
    let bob = "bob".to_string();
    s.execute_create_pool(&alice, "tokena", "tokenb", 1000, 4000)
        .unwrap();
    let li = s.query_liquidity(&bob, "tokena", "tokenb").unwrap();
    assert_eq!((li.liquidity, li.share_a, li.share_b), (0, 0, 0));
    let r = s.query_liquidity(&bob, "tokena", "tokenc");
    assert!(r.is_err());
}

#[test]
fn config_and_admin_updates() {
    let mut s = fresh(30);
    let alice = "alice".to_string();
    let admin = "admin".to_string();
    let c = s.query_config();
    assert_eq!(c.admin, "admin");
    assert_eq!(c.fee_rate, 30);
    let r = s.execute_update_fee_rate(&alice, 50);
    assert_eq!(r, Err(ContractError::Unauthorized));
    s.execute_update_fee_rate(&admin, 50).unwrap();
    assert_eq!(s.query_config().fee_rate, 50);
    let r = s.execute_update_admin(&alice, "alice".to_string());
    assert_eq!(r, Err(ContractError::Unauthorized));
    s.execute_update_admin(&admin, "alice".to_string()).unwrap();
    assert_eq!(s.query_config().admin, "alice");
    s.execute_update_fee_rate(&alice, 25).unwrap();
    assert_eq!(s.query_config().fee_rate, 25);
}

#[test]
fn price_swap_exact_formula() {
    // amountInAfterFee = 110 * 9970 / 10000 = 109 (floor),
    // amountOut = 109 * 4400 / (1100 + 109) = 479600 / 1209 = 396 (floor).
    let (out, fee) = price_swap(1100, 4400, 110, 30);
    assert_eq!(out, 396);
    assert_eq!(fee, 1);
    // Zero fee: the input goes in whole.
    let (out, fee) = price_swap(1000, 1000, 500, 0);
    assert_eq!(out, 500 * 1000 / 1500);
    assert_eq!(fee, 0);
}
