//! Read-only projections of the ledger: none of them mutates state.

use vstd::prelude::*;

use crate::error::ContractError;
use crate::dex::DexState;
use crate::dex::spec_held;
use crate::dex::spec_reserves_for;
use crate::ledger::lemma_find_pool_at;
use crate::ledger::lemma_find_pool_none;
use crate::ledger::lemma_find_position_at;
use crate::ledger::lemma_find_position_none;
use crate::ledger::lemma_sorted_implies_distinct;
use crate::lex::lemma_lex_total;
use crate::lex::str_lt;
use crate::msg::LiquidityInfo;
use crate::msg::PoolInfo;
use crate::msg::SimulationResponse;
use crate::pricing::lemma_div_cross;
use crate::pricing::price_swap;
use crate::pricing::spec_after_fee;
use crate::pricing::spec_amount_out;
use crate::pricing::spec_fee;
use crate::state::Config;
use crate::state::Pool;
use crate::state::key_lt;
use crate::state::pool_key;
use crate::state::spec_pool_key;

verus! {

/// The suffix of a sorted pool listing that lies strictly after an exclusive
/// lower bound: leading pools at or under the bound are dropped.
pub open spec fn spec_list_from(pools: Seq<Pool>, bound: (Seq<char>, Seq<char>)) -> Seq<Pool>
    decreases pools.len(),
{
    if pools.len() == 0 {
        pools
    } else if key_lt(bound, pools[0].key()) {
        pools
    } else {
        spec_list_from(pools.drop_first(), bound)
    }
}

/// The effective page size: the default when none is asked for, and never
/// above the hard cap.
pub open spec fn spec_page_limit(limit: Option<u32>) -> int {
    match limit {
        Some(l) => if l <= 30 {
            l as int
        } else {
            30
        },
        None => 10,
    }
}

/// The page of pools a listing returns: everything strictly after the
/// bound derived from the start-after token, cut to the page size.
pub open spec fn spec_listing(s: DexState, start_after: Option<String>, limit: Option<u32>) -> Seq<
    Pool,
> {
    let after = match start_after {
        Some(t) => spec_list_from(s.pools@, spec_pool_key(t@, Seq::empty())),
        None => s.pools@,
    };
    let lim = spec_page_limit(limit);
    if after.len() <= lim {
        after
    } else {
        after.take(lim)
    }
}

/// Marginal-price impact of a would-be swap, in basis points: the relative
/// move between the pre-trade price `reserve_out * 10000 / reserve_in` and
/// the post-trade price on the would-be updated reserves, magnitude only.
pub open spec fn spec_price_impact_bps(p: Pool, token_in: Seq<char>, amount_in: u128, fee_rate: u128) -> int {
    let reserve_in = spec_reserves_for(p, token_in).0;
    let reserve_out = spec_reserves_for(p, token_in).1;
    let out = spec_amount_out(reserve_in, reserve_out, amount_in, fee_rate);
    let price_before = reserve_out * 10000 / (reserve_in as int);
    let price_after = (reserve_out - out) * 10000 / (reserve_in + amount_in);
    if price_before > price_after {
        (price_before - price_after) * 10000 / price_before
    } else {
        (price_after - price_before) * 10000 / price_before
    }
}

/// In a sorted pool store, everything the listing keeps lies strictly after
/// the exclusive bound, and it stays in ascending key order as a suffix of
/// the store.
pub proof fn lemma_list_from_after_bound(pools: Seq<Pool>, bound: (Seq<char>, Seq<char>))
    requires
        crate::ledger::pools_sorted(pools),
    ensures
        forall|i: int|
            0 <= i < spec_list_from(pools, bound).len() ==> key_lt(
                bound,
                (#[trigger] spec_list_from(pools, bound)[i]).key(),
            ),
    decreases pools.len(),
{
    if pools.len() > 0 {
        if key_lt(bound, pools[0].key()) {
            assert(spec_list_from(pools, bound) == pools);
            assert forall|i: int| 0 <= i < pools.len() implies key_lt(
                bound,
                (#[trigger] pools[i]).key(),
            ) by {
                if i > 0 {
                    assert(key_lt(pools[0].key(), pools[i].key()));
                    crate::state::lemma_key_lt_transitive(bound, pools[0].key(), pools[i].key());
                }
            }
        } else {
            assert(forall|q: int, r: int|
                #![trigger pools.drop_first()[q].key(), pools.drop_first()[r].key()]
                0 <= q < r < pools.drop_first().len() ==> pools.drop_first()[q] == pools[q + 1]
                    && pools.drop_first()[r] == pools[r + 1]);
            lemma_list_from_after_bound(pools.drop_first(), bound);
            assert(spec_list_from(pools, bound) == spec_list_from(pools.drop_first(), bound));
        }
    }
}

/// Whether a pool's key comes strictly after a canonical pair key.
fn pool_after(p: &Pool, key: &(String, String)) -> (r: bool)
    ensures
        r == key_lt((key.0@, key.1@), p.key()),
{
    if str_lt(key.0.as_str(), p.token_a.as_str()) {
        true
    } else if str_lt(p.token_a.as_str(), key.0.as_str()) {
        false
    } else {
        proof {
            lemma_lex_total(key.0@, p.token_a@);
        }
        str_lt(key.1.as_str(), p.token_b.as_str())
    }
}

impl DexState {
    /// The current configuration, verbatim.
    pub fn query_config(&self) -> (c: Config)
        ensures
            c.admin@ == self.config.admin@,
            c.fee_rate == self.config.fee_rate,
    {
        Config { admin: self.config.admin.clone(), fee_rate: self.config.fee_rate }
    }

    /// The pool of the two named tokens, projected verbatim.
    pub fn query_pool(&self, token_a: &str, token_b: &str) -> (r: Result<PoolInfo, ContractError>)
        requires
            self.wf(),
        ensures
            r is Err <==> self.spec_pool(spec_pool_key(token_a@, token_b@)) is None,
            r is Err ==> r == Err::<PoolInfo, ContractError>(ContractError::PoolNotFound),
            r matches Ok(info) ==> (self.spec_pool(spec_pool_key(token_a@, token_b@))
                matches Some(p) && info.shows(p)),
    {
        let key = pool_key(token_a, token_b);
        let ghost gkey = spec_pool_key(token_a@, token_b@);
        match self.find_pool_index(&key) {
            None => {
                proof {
                    lemma_find_pool_none(self.pools@, gkey);
                }
                Err(ContractError::PoolNotFound)
            },
            Some(i) => {
                proof {
                    lemma_sorted_implies_distinct(self.pools@);
                    lemma_find_pool_at(self.pools@, gkey, i as int);
                }
                let p = &self.pools[i];
                Ok(
                    PoolInfo {
                        token_a: p.token_a.clone(),
                        token_b: p.token_b.clone(),
                        reserve_a: p.reserve_a,
                        reserve_b: p.reserve_b,
                        total_liquidity: p.total_liquidity,
                    },
                )
            },
        }
    }

    /// List pools in ascending canonical key order, starting strictly after
    /// the bound derived from `start_after`, at most a capped page's worth.
    pub fn query_pools(&self, start_after: Option<String>, limit: Option<u32>) -> (r: Vec<
        PoolInfo,
    >)
        requires
            self.wf(),
        ensures
            r@.len() == spec_listing(*self, start_after, limit).len(),
            forall|j: int|
                0 <= j < r@.len() ==> (#[trigger] r@[j]).shows(
                    spec_listing(*self, start_after, limit)[j],
                ),
    {
        let limit_cap: u32 = match limit {
            Some(l) => if l <= 30 {
                l
            } else {
                30
            },
            None => 10,
        };
        let page = limit_cap as usize;
        let n = self.pools.len();
        let mut start: usize = 0;
        match &start_after {
            Some(s) => {
                let bound = pool_key(s.as_str(), "");
                let ghost bkey = spec_pool_key(s@, Seq::empty());
                proof {
                    reveal_strlit("");
                    assert(""@ =~= Seq::<char>::empty());
                    assert((bound.0@, bound.1@) == bkey);
                    assert(self.pools@.skip(0) =~= self.pools@);
                }
                loop
                    invariant_except_break
                        n == self.pools@.len(),
                        0 <= start <= n,
                        (bound.0@, bound.1@) == bkey,
                        spec_list_from(self.pools@, bkey) == spec_list_from(
                            self.pools@.skip(start as int),
                            bkey,
                        ),
                    ensures
                        n == self.pools@.len(),
                        0 <= start <= n,
                        spec_list_from(self.pools@, bkey) == self.pools@.skip(start as int),
                    decreases n - start,
                {
                    if start >= n {
                        assert(self.pools@.skip(start as int).len() == 0);
                        break ;
                    }
                    let p = &self.pools[start];
                    assert(*p == self.pools@.skip(start as int)[0]);
                    if pool_after(p, &bound) {
                        break ;
                    }
                    proof {
                        assert(self.pools@.skip(start as int).drop_first() =~= self.pools@.skip(
                            start as int + 1,
                        ));
                    }
                    start = start + 1;
                }
            },
            None => {
                proof {
                    assert(self.pools@.skip(0) =~= self.pools@);
                }
            },
        }
        let ghost after = self.pools@.skip(start as int);
        let ghost listed = spec_listing(*self, start_after, limit);
        proof {
            assert(listed == if after.len() <= page as int {
                after
            } else {
                after.take(page as int)
            });
        }
        let mut out: Vec<PoolInfo> = Vec::new();
        let mut i: usize = start;
        while i < n && out.len() < page
            invariant
                n == self.pools@.len(),
                start <= i <= n,
                after == self.pools@.skip(start as int),
                out@.len() == i - start,
                out@.len() <= page,
                forall|j: int| 0 <= j < out@.len() ==> (#[trigger] out@[j]).shows(after[j]),
            decreases n - i,
        {
            let p = &self.pools[i];
            assert(*p == after[i - start]);
            out.push(
                PoolInfo {
                    token_a: p.token_a.clone(),
                    token_b: p.token_b.clone(),
                    reserve_a: p.reserve_a,
                    reserve_b: p.reserve_b,
                    total_liquidity: p.total_liquidity,
                },
            );
            i = i + 1;
        }
        proof {
            if after.len() > page as int {
                assert(after.take(page as int).len() == page as int);
                assert(forall|j: int| 0 <= j < page as int ==> after.take(page as int)[j] == after[j]);
            }
        }
        out
    }
}

/// Simulation/execution equivalence: a simulated swap and an executed swap
/// against the same ledger state promise the same output and the same fee.
/// Both `query_simulation` and `execute_swap` state their results as
/// `spec_amount_out` and `spec_fee` over the reserves the pool holds for the
/// swapped-in token, so any values meeting the two contracts coincide.
pub proof fn lemma_simulation_execution_equivalence(
    sim: SimulationResponse,
    swap_result: (u128, u128),
    p: Pool,
    token_in: Seq<char>,
    amount_in: u128,
    fee_rate: u128,
)
    requires
        sim.amount_out == spec_amount_out(
            spec_reserves_for(p, token_in).0,
            spec_reserves_for(p, token_in).1,
            amount_in,
            fee_rate,
        ),
        sim.fee == spec_fee(amount_in, fee_rate),
        swap_result.0 == spec_amount_out(
            spec_reserves_for(p, token_in).0,
            spec_reserves_for(p, token_in).1,
            amount_in,
            fee_rate,
        ),
        swap_result.1 == spec_fee(amount_in, fee_rate),
    ensures
        sim.amount_out == swap_result.0,
        sim.fee == swap_result.1,
{
}

impl DexState {
    /// One account's stake in a pool: the held shares (zero if no record)
    /// and the pro-rata redeemable amounts of both reserves, rounded down;
    /// zero redeemable if the pool has no outstanding shares.
    pub fn query_liquidity(&self, user: &String, token_a: &str, token_b: &str) -> (r: Result<
        LiquidityInfo,
        ContractError,
    >)
        requires
            self.wf(),
            self.spec_pool(spec_pool_key(token_a@, token_b@)) matches Some(p) ==> ({
                &&& spec_held(*self, user@, spec_pool_key(token_a@, token_b@)) * p.reserve_a
                    <= u128::MAX
                &&& spec_held(*self, user@, spec_pool_key(token_a@, token_b@)) * p.reserve_b
                    <= u128::MAX
            }),
        ensures
            r is Err <==> self.spec_pool(spec_pool_key(token_a@, token_b@)) is None,
            r is Err ==> r == Err::<LiquidityInfo, ContractError>(ContractError::PoolNotFound),
            r matches Ok(info) ==> (self.spec_pool(spec_pool_key(token_a@, token_b@))
                matches Some(p) && ({
                let held = spec_held(*self, user@, spec_pool_key(token_a@, token_b@));
                &&& info.liquidity == held
                &&& info.share_a == (if p.total_liquidity > 0 {
                    held * p.reserve_a / (p.total_liquidity as int)
                } else {
                    0
                })
                &&& info.share_b == (if p.total_liquidity > 0 {
                    held * p.reserve_b / (p.total_liquidity as int)
                } else {
                    0
                })
            })),
    {
        let key = pool_key(token_a, token_b);
        let ghost gkey = spec_pool_key(token_a@, token_b@);
        let pool_idx = match self.find_pool_index(&key) {
            None => {
                proof {
                    lemma_find_pool_none(self.pools@, gkey);
                }
                return Err(ContractError::PoolNotFound);
            },
            Some(i) => i,
        };
        proof {
            lemma_sorted_implies_distinct(self.pools@);
            lemma_find_pool_at(self.pools@, gkey, pool_idx as int);
        }
        let held = match self.find_position_index(user, &key) {
            None => {
                proof {
                    lemma_find_position_none(self.positions@, user@, gkey);
                }
                0u128
            },
            Some(i) => {
                proof {
                    lemma_find_position_at(self.positions@, user@, gkey, i as int);
                }
                self.positions[i].position.liquidity
            },
        };
        assert(held as int == spec_held(*self, user@, gkey));
        let p = &self.pools[pool_idx];
        let share_a = if p.total_liquidity == 0 {
            0
        } else {
            held * p.reserve_a / p.total_liquidity
        };
        let share_b = if p.total_liquidity == 0 {
            0
        } else {
            held * p.reserve_b / p.total_liquidity
        };
        Ok(LiquidityInfo { liquidity: held, share_a, share_b })
    }

    /// Price a would-be swap against the current reserves without touching
    /// them: the output, the fee, and the marginal-price impact in basis
    /// points. The pricing is the very computation the swap operation runs,
    /// so simulation and execution agree on identical inputs.
    pub fn query_simulation(&self, token_in: &str, token_out: &str, amount_in: u128) -> (r: Result<
        SimulationResponse,
        ContractError,
    >)
        requires
            self.wf(),
            self.spec_pool(spec_pool_key(token_in@, token_out@)) matches Some(p) ==> ({
                let ins_outs = spec_reserves_for(p, token_in@);
                &&& p.total_liquidity > 0
                &&& amount_in * (10000 - self.config.fee_rate) <= u128::MAX
                &&& spec_after_fee(amount_in, self.config.fee_rate) * ins_outs.1 <= u128::MAX
                &&& ins_outs.0 + amount_in <= u128::MAX
                &&& ins_outs.1 * 10000 <= u128::MAX
                &&& ins_outs.1 * 10000 / (ins_outs.0 as int) >= 1
                &&& (ins_outs.1 * 10000 / (ins_outs.0 as int)) * 10000 <= u128::MAX
            }),
        ensures
            r is Err <==> self.spec_pool(spec_pool_key(token_in@, token_out@)) is None,
            r is Err ==> r == Err::<SimulationResponse, ContractError>(ContractError::PoolNotFound),
            r matches Ok(sim) ==> (self.spec_pool(spec_pool_key(token_in@, token_out@))
                matches Some(p) && ({
                let reserve_in = spec_reserves_for(p, token_in@).0;
                let reserve_out = spec_reserves_for(p, token_in@).1;
                &&& sim.amount_out == spec_amount_out(
                    reserve_in,
                    reserve_out,
                    amount_in,
                    self.config.fee_rate,
                )
                &&& sim.fee == spec_fee(amount_in, self.config.fee_rate)
                &&& sim.price_impact_bps == spec_price_impact_bps(
                    p,
                    token_in@,
                    amount_in,
                    self.config.fee_rate,
                )
            })),
    {
        let key = pool_key(token_in, token_out);
        let ghost gkey = spec_pool_key(token_in@, token_out@);
        let pool_idx = match self.find_pool_index(&key) {
            None => {
                proof {
                    lemma_find_pool_none(self.pools@, gkey);
                }
                return Err(ContractError::PoolNotFound);
            },
            Some(i) => i,
        };
        proof {
            lemma_sorted_implies_distinct(self.pools@);
            lemma_find_pool_at(self.pools@, gkey, pool_idx as int);
        }
        let ghost p = self.pools@[pool_idx as int];
        let fee_rate = self.config.fee_rate;
        let (reserve_in, reserve_out) = {
            let pl = &self.pools[pool_idx];
            assert(*pl == p);
            let lt1 = str_lt(token_in, pl.token_a.as_str());
            let lt2 = str_lt(pl.token_a.as_str(), token_in);
            proof {
                lemma_lex_total(token_in@, pl.token_a@);
                if lt1 {
                    crate::lex::lemma_lex_asymmetric(token_in@, pl.token_a@);
                }
                if lt2 {
                    crate::lex::lemma_lex_asymmetric(pl.token_a@, token_in@);
                }
            }
            if !lt1 && !lt2 {
                (pl.reserve_a, pl.reserve_b)
            } else {
                (pl.reserve_b, pl.reserve_a)
            }
        };
        assert((reserve_in, reserve_out) == spec_reserves_for(p, token_in@));
        let priced = price_swap(reserve_in, reserve_out, amount_in, fee_rate);
        let amount_out = priced.0;
        let fee = priced.1;
        let price_before = reserve_out * 10000 / reserve_in;
        let new_reserve_in = reserve_in + amount_in;
        let new_reserve_out = reserve_out - amount_out;
        let price_after = new_reserve_out * 10000 / new_reserve_in;
        proof {
            // The trade can only push the marginal price down: the output
            // reserve shrinks while the input reserve grows.
            assert(new_reserve_out * 10000 * reserve_in <= reserve_out * 10000 * new_reserve_in)
                by (nonlinear_arith)
                requires
                    new_reserve_out <= reserve_out,
                    new_reserve_in >= reserve_in,
                    reserve_in > 0,
                    reserve_out >= 0,
                    new_reserve_out >= 0;
            lemma_div_cross(
                new_reserve_out * 10000,
                new_reserve_in as int,
                reserve_out * 10000,
                reserve_in as int,
            );
            assert(price_after <= price_before);
        }
        let price_impact_bps = if price_before > price_after {
            (price_before - price_after) * 10000 / price_before
        } else {
            (price_after - price_before) * 10000 / price_before
        };
        Ok(SimulationResponse { amount_out, fee, price_impact_bps })
    }
}

} // verus!
