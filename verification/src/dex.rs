//! The pool and position ledger, and its four mutating operations.
//!
//! Every operation is all-or-nothing: it either returns a fully updated
//! state, or fails with the state exactly as it was. The well-formedness
//! predicate carries the global conservation law: for every pool, the sum of
//! all position shares over its pair equals the pool's total shares.

use vstd::prelude::*;

use crate::error::ContractError;
use crate::ledger::lemma_entry_le_sum;
use crate::ledger::lemma_find_pool_at;
use crate::ledger::lemma_find_pool_insert;
use crate::ledger::lemma_find_pool_none;
use crate::ledger::lemma_find_pool_update;
use crate::ledger::lemma_find_position_at;
use crate::ledger::lemma_find_position_none;
use crate::ledger::lemma_find_position_push;
use crate::ledger::lemma_find_position_update;
use crate::ledger::lemma_sorted_implies_distinct;
use crate::ledger::lemma_sum_push;
use crate::ledger::lemma_sum_update;
use crate::ledger::lemma_sum_zero;
use crate::ledger::pool_keys_distinct;
use crate::ledger::pools_sorted;
use crate::ledger::position_keys_distinct;
use crate::ledger::share_of;
use crate::ledger::spec_find_pool;
use crate::ledger::spec_find_position;
use crate::ledger::sum_shares;
use crate::lex::lemma_lex_total;
use crate::lex::str_lt;
use crate::pricing::spec_after_fee;
use crate::pricing::spec_amount_out;
use crate::pricing::spec_fee;
use crate::state::Config;
use crate::state::Pool;
use crate::state::key_lt;
use crate::state::lemma_key_lt_total;
use crate::state::lemma_key_lt_transitive;
use crate::state::pool_key;
use crate::state::spec_by_key_order;
use crate::state::spec_pool_key;
use crate::state::LiquidityPosition;
use crate::state::PositionEntry;

verus! {

/// The whole ledger: the configuration, the pools in ascending canonical key
/// order, and one position entry per (owner, pair).
pub struct DexState {
    pub config: Config,
    pub pools: Vec<Pool>,
    pub positions: Vec<PositionEntry>,
}

impl DexState {
    /// The pool standing under a canonical pair key, if any.
    pub open spec fn spec_pool(self, key: (Seq<char>, Seq<char>)) -> Option<Pool> {
        spec_find_pool(self.pools@, key)
    }

    /// The shares an owner holds over a canonical pair key, if a position
    /// record exists.
    pub open spec fn spec_position(self, owner: Seq<char>, key: (Seq<char>, Seq<char>)) -> Option<
        u128,
    > {
        spec_find_position(self.positions@, owner, key)
    }

    /// Ledger well-formedness. Besides the shape of the two stores, this
    /// carries the conservation law: for every pool, the sum of all position
    /// shares over its pair equals the pool's total shares.
    pub open spec fn wf(self) -> bool {
        &&& self.config.wf()
        &&& (forall|i: int| 0 <= i < self.pools@.len() ==> (#[trigger] self.pools@[i]).wf())
        &&& pools_sorted(self.pools@)
        &&& position_keys_distinct(self.positions@)
        &&& (forall|i: int|
            0 <= i < self.positions@.len() ==> spec_find_pool(
                self.pools@,
                (#[trigger] self.positions@[i]).key(),
            ) is Some)
        &&& (forall|i: int|
            0 <= i < self.pools@.len() ==> sum_shares(
                self.positions@,
                (#[trigger] self.pools@[i]).key(),
            ) == self.pools@[i].total_liquidity as int)
    }

    /// A fresh ledger: the given configuration, no pools, no positions.
    pub fn new(admin: String, fee_rate: u128) -> (s: DexState)
        requires
            fee_rate < 10000,
        ensures
            s.wf(),
            s.config.admin@ == admin@,
            s.config.fee_rate == fee_rate,
            s.pools@.len() == 0,
            s.positions@.len() == 0,
    {
        DexState { config: Config { admin, fee_rate }, pools: Vec::new(), positions: Vec::new() }
    }

    /// Index of the pool under a canonical key, if one exists.
    pub(crate) fn find_pool_index(&self, key: &(String, String)) -> (r: Option<usize>)
        ensures
            match r {
                Some(i) => i < self.pools@.len() && self.pools@[i as int].key() == (
                    key.0@,
                    key.1@,
                ),
                None => forall|i: int|
                    0 <= i < self.pools@.len() ==> (#[trigger] self.pools@[i].key()) != (
                        key.0@,
                        key.1@,
                    ),
            },
    {
        let n = self.pools.len();
        let mut i: usize = 0;
        while i < n
            invariant
                n == self.pools@.len(),
                0 <= i <= n,
                forall|j: int|
                    0 <= j < i ==> (#[trigger] self.pools@[j].key()) != (key.0@, key.1@),
            decreases n - i,
        {
            let p = &self.pools[i];
            if p.token_a == key.0 && p.token_b == key.1 {
                return Some(i);
            }
            i = i + 1;
        }
        None
    }

    /// Index of the position entry for an owner and canonical key, if one
    /// exists.
    pub(crate) fn find_position_index(&self, owner: &String, key: &(String, String)) -> (r: Option<usize>)
        ensures
            match r {
                Some(i) => i < self.positions@.len() && self.positions@[i as int].is_for(
                    owner@,
                    (key.0@, key.1@),
                ),
                None => forall|i: int|
                    0 <= i < self.positions@.len() ==> !(#[trigger] self.positions@[i]).is_for(
                        owner@,
                        (key.0@, key.1@),
                    ),
            },
    {
        let n = self.positions.len();
        let mut i: usize = 0;
        while i < n
            invariant
                n == self.positions@.len(),
                0 <= i <= n,
                forall|j: int|
                    0 <= j < i ==> !(#[trigger] self.positions@[j]).is_for(
                        owner@,
                        (key.0@, key.1@),
                    ),
            decreases n - i,
        {
            let e = &self.positions[i];
            if e.owner == *owner && e.token_a == key.0 && e.token_b == key.1 {
                return Some(i);
            }
            i = i + 1;
        }
        None
    }
}

impl DexState {
    /// Create the pool for a new pair, fund it with the two initial deposits
    /// — each deposit into its own token's reserve, whatever order the caller
    /// names the pair in — and issue the genesis shares, the floor of the
    /// geometric mean of the deposits, entirely to the creator.
    ///
    /// All-or-nothing: on any error the ledger is exactly as it was.
    #[verifier::rlimit(100)]
    pub fn execute_create_pool(
        &mut self,
        sender: &String,
        token_a: &str,
        token_b: &str,
        initial_a: u128,
        initial_b: u128,
    ) -> (r: Result<u128, ContractError>)
        requires
            old(self).wf(),
            initial_a * initial_b < u128::MAX,
        ensures
            final(self).wf(),
            final(self).config == old(self).config,
            r is Err ==> *final(self) == *old(self),
            (r == Err::<u128, ContractError>(ContractError::ZeroAmount)) <==> (initial_a == 0
                || initial_b == 0),
            (r == Err::<u128, ContractError>(ContractError::InvalidTokenPair)) <==> (initial_a > 0
                && initial_b > 0 && token_a@ == token_b@),
            (r == Err::<u128, ContractError>(ContractError::PoolAlreadyExists)) <==> (initial_a > 0
                && initial_b > 0 && token_a@ != token_b@ && old(self).spec_pool(
                spec_pool_key(token_a@, token_b@),
            ) is Some),
            r is Ok <==> (initial_a > 0 && initial_b > 0 && token_a@ != token_b@ && old(
                self,
            ).spec_pool(spec_pool_key(token_a@, token_b@)) is None),
            r matches Ok(l) ==> ({
                let key = spec_pool_key(token_a@, token_b@);
                &&& l > 0
                &&& l * l <= initial_a * initial_b < (l + 1) * (l + 1)
                &&& (final(self).spec_pool(key) matches Some(p) && p.token_a@ == key.0
                    && p.token_b@ == key.1 && p.reserve_a == spec_by_key_order(
                    token_a@,
                    token_b@,
                    initial_a,
                    initial_b,
                ).0 && p.reserve_b == spec_by_key_order(token_a@, token_b@, initial_a, initial_b).1
                    && p.total_liquidity == l)
                &&& final(self).spec_position(sender@, key) == Some(l)
                &&& (forall|k: (Seq<char>, Seq<char>)|
                    k != key ==> #[trigger] final(self).spec_pool(k) == old(self).spec_pool(k))
                &&& (forall|o: Seq<char>, k: (Seq<char>, Seq<char>)|
                    !(o == sender@ && k == key) ==> #[trigger] final(self).spec_position(o, k)
                        == old(self).spec_position(o, k))
            }),
    {
        if initial_a == 0 || initial_b == 0 {
            return Err(ContractError::ZeroAmount);
        }
        let a_before_b = str_lt(token_a, token_b);
        let b_before_a = str_lt(token_b, token_a);
        proof {
            lemma_lex_total(token_a@, token_b@);
            if a_before_b {
                crate::lex::lemma_lex_asymmetric(token_a@, token_b@);
            }
            if b_before_a {
                crate::lex::lemma_lex_asymmetric(token_b@, token_a@);
            }
        }
        if !a_before_b && !b_before_a {
            return Err(ContractError::InvalidTokenPair);
        }
        let key = pool_key(token_a, token_b);
        let ghost gkey = spec_pool_key(token_a@, token_b@);
        if self.find_pool_index(&key).is_some() {
            proof {
                lemma_find_pool_none(self.pools@, gkey);
            }
            return Err(ContractError::PoolAlreadyExists);
        }
        proof {
            lemma_find_pool_none(self.pools@, gkey);
        }
        let product = initial_a * initial_b;
        let liquidity = crate::math::isqrt(product);
        if liquidity == 0 {
            proof {
                assert(false) by (nonlinear_arith)
                    requires
                        liquidity == 0,
                        product < (liquidity + 1) * (liquidity + 1),
                        product == initial_a * initial_b,
                        initial_a >= 1,
                        initial_b >= 1;
            }
            return Err(ContractError::MinLiquidityNotMet);
        }
        // Pair each deposit with its own token: when canonicalization swaps
        // the tokens it swaps the amounts with them.
        let (first_amount, second_amount) = if a_before_b {
            (initial_a, initial_b)
        } else {
            (initial_b, initial_a)
        };
        assert((first_amount, second_amount) == spec_by_key_order(
            token_a@,
            token_b@,
            initial_a,
            initial_b,
        ));
        let pool = Pool {
            token_a: key.0.clone(),
            token_b: key.1.clone(),
            reserve_a: first_amount,
            reserve_b: second_amount,
            total_liquidity: liquidity,
        };
        assert(pool.key() == gkey);
        assert(pool.wf());
        let n = self.pools.len();
        let mut idx: usize = 0;
        while idx < n
            invariant_except_break
                n == self.pools@.len(),
                0 <= idx <= n,
                (key.0@, key.1@) == gkey,
                forall|j: int| 0 <= j < idx ==> key_lt((#[trigger] self.pools@[j].key()), gkey),
            ensures
                n == self.pools@.len(),
                0 <= idx <= n,
                forall|j: int| 0 <= j < idx ==> key_lt((#[trigger] self.pools@[j].key()), gkey),
                idx < n ==> !key_lt(self.pools@[idx as int].key(), gkey),
            decreases n - idx,
        {
            let p = &self.pools[idx];
            assert(*p == self.pools@[idx as int]);
            let before = pool_before(p, &key);
            if !before {
                break ;
            }
            idx = idx + 1;
        }
        let ghost opools = self.pools@;
        let ghost opos = self.positions@;
        proof {
            lemma_sorted_implies_distinct(opools);
            if idx < opools.len() {
                lemma_key_lt_total(opools[idx as int].key(), gkey);
            }
        }
        self.pools.insert(idx, pool);
        let entry = PositionEntry {
            owner: sender.clone(),
            token_a: key.0,
            token_b: key.1,
            position: LiquidityPosition { liquidity },
        };
        assert(entry.key() == gkey && entry.owner@ == sender@);
        self.positions.push(entry);
        proof {
            let npools = self.pools@;
            let npos = self.positions@;
            assert(npools == opools.insert(idx as int, pool));
            opools.insert_ensures(idx as int, pool);
            // No old position stands under the fresh key: each position's
            // pool exists, and this key had none.
            assert forall|i: int| 0 <= i < opos.len() implies (#[trigger] opos[i]).key()
                != gkey by {
                if opos[i].key() == gkey {
                    assert(spec_find_pool(opools, gkey) is Some);
                }
            }
            // The new pool store is still strictly sorted.
            assert forall|i: int, j: int|
                0 <= i < j < npools.len() implies key_lt(
                (#[trigger] npools[i].key()),
                (#[trigger] npools[j].key()),
            ) by {
                if j < idx {
                    assert(npools[i] == opools[i] && npools[j] == opools[j]);
                } else if j == idx {
                    assert(npools[i] == opools[i]);
                    assert(key_lt(opools[i].key(), gkey));
                } else if i < idx {
                    assert(npools[i] == opools[i] && npools[j] == opools[j - 1]);
                    if i == j - 1 {
                        assert(key_lt(opools[i].key(), gkey));
                        assert(key_lt(gkey, opools[j - 1].key()));
                        assert(false);
                    }
                } else if i == idx {
                    assert(npools[j] == opools[j - 1]);
                    assert(key_lt(gkey, opools[idx as int].key()));
                    if j - 1 > idx {
                        lemma_key_lt_transitive(
                            gkey,
                            opools[idx as int].key(),
                            opools[j - 1].key(),
                        );
                    }
                } else {
                    assert(npools[i] == opools[i - 1] && npools[j] == opools[j - 1]);
                }
            }
            // Every pool in the new store is well formed.
            assert forall|i: int| 0 <= i < npools.len() implies (#[trigger] npools[i]).wf() by {
                if i < idx {
                    assert(npools[i] == opools[i]);
                } else if i > idx {
                    assert(npools[i] == opools[i - 1]);
                }
            }
            // Position keys stay pairwise distinct: the pushed key is fresh.
            assert(npos == opos.push(entry));
            assert forall|i: int, j: int| 0 <= i < j < npos.len() implies !((
            #[trigger] npos[i]).owner@ == (#[trigger] npos[j]).owner@ && npos[i].key()
                == npos[j].key()) by {
                if j < opos.len() {
                    assert(npos[i] == opos[i] && npos[j] == opos[j]);
                } else {
                    assert(npos[i] == opos[i] && npos[j] == entry);
                    assert(opos[i].key() != gkey);
                }
            }
            // Every position's pool still exists.
            lemma_sorted_implies_distinct(npools);
            assert forall|i: int| 0 <= i < npos.len() implies spec_find_pool(
                npools,
                (#[trigger] npos[i]).key(),
            ) is Some by {
                lemma_find_pool_insert(opools, idx as int, pool, npos[i].key());
                if i < opos.len() {
                    assert(npos[i] == opos[i]);
                } else {
                    assert(npos[i] == entry);
                }
            }
            // Conservation holds for every pool in the new store.
            assert forall|i: int| 0 <= i < npools.len() implies sum_shares(
                npos,
                (#[trigger] npools[i]).key(),
            ) == npools[i].total_liquidity as int by {
                lemma_sum_push(opos, entry, npools[i].key());
                if i == idx {
                    lemma_sum_zero(opos, gkey);
                    assert(share_of(entry, gkey) == liquidity as int);
                } else {
                    let oi = if i < idx { i } else { i - 1 };
                    assert(npools[i] == opools[oi]);
                    assert(npools[i].key() != gkey);
                    assert(share_of(entry, npools[i].key()) == 0);
                }
            }
            // The promised lookups.
            lemma_find_pool_insert(opools, idx as int, pool, gkey);
            assert forall|k: (Seq<char>, Seq<char>)| k != gkey implies #[trigger] spec_find_pool(
                npools,
                k,
            ) == spec_find_pool(opools, k) by {
                lemma_find_pool_insert(opools, idx as int, pool, k);
            }
            lemma_find_position_push(opos, entry, sender@, gkey);
            assert forall|o: Seq<char>, k: (Seq<char>, Seq<char>)|
                !(o == sender@ && k == gkey) implies #[trigger] spec_find_position(npos, o, k)
                == spec_find_position(opos, o, k) by {
                lemma_find_position_push(opos, entry, o, k);
            }
        }
        Ok(liquidity)
    }
}

/// Shares minted for a deposit against an existing pool, with the tokens and
/// amounts as the caller named them: each amount is paired with its own
/// token's reserve, priced proportionally to the pool, rounded down, and the
/// smaller of the two candidates taken — the binding constraint is the asset
/// supplied in lower proportion. The full deposited amounts enter the
/// reserves either way; the non-binding excess is not refunded.
pub open spec fn spec_minted(
    p: Pool,
    token_a: Seq<char>,
    token_b: Seq<char>,
    amount_a: u128,
    amount_b: u128,
) -> int {
    let amounts = spec_by_key_order(token_a, token_b, amount_a, amount_b);
    let shares_a = amounts.0 * p.total_liquidity / (p.reserve_a as int);
    let shares_b = amounts.1 * p.total_liquidity / (p.reserve_b as int);
    if shares_a <= shares_b {
        shares_a
    } else {
        shares_b
    }
}

/// Shares an owner holds in a state, counting a missing record as zero.
pub open spec fn spec_held(s: DexState, owner: Seq<char>, key: (Seq<char>, Seq<char>)) -> int {
    match spec_find_position(s.positions@, owner, key) {
        Some(h) => h as int,
        None => 0,
    }
}

impl DexState {
    /// Deposit both assets into an existing pool and mint proportional
    /// shares to the sender. Reserves grow by the full deposited amounts;
    /// the minted count is the smaller of the two per-asset candidates.
    ///
    /// All-or-nothing: on any error the ledger is exactly as it was.
    #[verifier::rlimit(100)]
    pub fn execute_add_liquidity(
        &mut self,
        sender: &String,
        token_a: &str,
        token_b: &str,
        amount_a: u128,
        amount_b: u128,
        min_liquidity: u128,
    ) -> (r: Result<u128, ContractError>)
        requires
            old(self).wf(),
            old(self).spec_pool(spec_pool_key(token_a@, token_b@)) matches Some(p) ==> ({
                let amounts = spec_by_key_order(token_a@, token_b@, amount_a, amount_b);
                &&& p.total_liquidity > 0
                &&& amount_a * p.total_liquidity <= u128::MAX
                &&& amount_b * p.total_liquidity <= u128::MAX
                &&& p.reserve_a + amounts.0 <= u128::MAX
                &&& p.reserve_b + amounts.1 <= u128::MAX
                &&& p.total_liquidity + spec_minted(p, token_a@, token_b@, amount_a, amount_b)
                    <= u128::MAX
            }),
        ensures
            final(self).wf(),
            final(self).config == old(self).config,
            r is Err ==> *final(self) == *old(self),
            (r == Err::<u128, ContractError>(ContractError::PoolNotFound)) <==> old(
                self,
            ).spec_pool(spec_pool_key(token_a@, token_b@)) is None,
            (r == Err::<u128, ContractError>(ContractError::MinLiquidityNotMet)) <==> (old(
                self,
            ).spec_pool(spec_pool_key(token_a@, token_b@)) matches Some(p) && spec_minted(
                p,
                token_a@,
                token_b@,
                amount_a,
                amount_b,
            ) < min_liquidity),
            r is Ok <==> (old(self).spec_pool(spec_pool_key(token_a@, token_b@)) matches Some(p)
                && spec_minted(p, token_a@, token_b@, amount_a, amount_b) >= min_liquidity),
            r matches Ok(l) ==> ({
                let key = spec_pool_key(token_a@, token_b@);
                let amounts = spec_by_key_order(token_a@, token_b@, amount_a, amount_b);
                &&& (old(self).spec_pool(key) matches Some(p) && l == spec_minted(
                    p,
                    token_a@,
                    token_b@,
                    amount_a,
                    amount_b,
                ) && (final(self).spec_pool(key) matches Some(q) && q.token_a@ == p.token_a@
                    && q.token_b@ == p.token_b@ && q.reserve_a == p.reserve_a + amounts.0
                    && q.reserve_b == p.reserve_b + amounts.1 && q.total_liquidity
                    == p.total_liquidity + l))
                &&& l >= min_liquidity
                &&& spec_held(*final(self), sender@, key) == spec_held(*old(self), sender@, key)
                    + l
                &&& final(self).spec_position(sender@, key) is Some
                &&& (forall|k: (Seq<char>, Seq<char>)|
                    k != key ==> #[trigger] final(self).spec_pool(k) == old(self).spec_pool(k))
                &&& (forall|o: Seq<char>, k: (Seq<char>, Seq<char>)|
                    !(o == sender@ && k == key) ==> #[trigger] final(self).spec_position(o, k)
                        == old(self).spec_position(o, k))
            }),
    {
        let key = pool_key(token_a, token_b);
        let ghost gkey = spec_pool_key(token_a@, token_b@);
        let pool_idx = match self.find_pool_index(&key) {
            None => {
                proof {
                    lemma_find_pool_none(self.pools@, gkey);
                }
                return Err(ContractError::PoolNotFound);
            },
            Some(i) => i,
        };
        proof {
            lemma_sorted_implies_distinct(self.pools@);
            lemma_find_pool_at(self.pools@, gkey, pool_idx as int);
        }
        let ghost p = self.pools@[pool_idx as int];
        // Pair each deposit with its own token: when canonicalization swaps
        // the tokens it swaps the amounts with them.
        let a_before_b = str_lt(token_a, token_b);
        let (first_amount, second_amount) = if a_before_b {
            (amount_a, amount_b)
        } else {
            (amount_b, amount_a)
        };
        assert((first_amount, second_amount) == spec_by_key_order(
            token_a@,
            token_b@,
            amount_a,
            amount_b,
        ));
        let liquidity_a = {
            let pl = &self.pools[pool_idx];
            first_amount * pl.total_liquidity / pl.reserve_a
        };
        let liquidity_b = {
            let pl = &self.pools[pool_idx];
            second_amount * pl.total_liquidity / pl.reserve_b
        };
        let liquidity = if liquidity_a < liquidity_b {
            liquidity_a
        } else {
            liquidity_b
        };
        assert(liquidity == spec_minted(p, token_a@, token_b@, amount_a, amount_b));
        if liquidity < min_liquidity {
            return Err(ContractError::MinLiquidityNotMet);
        }
        let ghost opools = self.pools@;
        let ghost opos = self.positions@;
        let new_pool = {
            let pl = &self.pools[pool_idx];
            Pool {
                token_a: pl.token_a.clone(),
                token_b: pl.token_b.clone(),
                reserve_a: pl.reserve_a + first_amount,
                reserve_b: pl.reserve_b + second_amount,
                total_liquidity: pl.total_liquidity + liquidity,
            }
        };
        assert(new_pool.key() == gkey && new_pool.wf());
        self.pools[pool_idx] = new_pool;
        let ghost npools = self.pools@;
        proof {
            assert(npools == opools.update(pool_idx as int, new_pool));
            // Keys are unchanged index by index, so order, distinctness and
            // every position's backing pool carry over.
            assert(forall|m: int|
                0 <= m < npools.len() ==> (#[trigger] npools[m]).key() == opools[m].key()
                    && npools[m].wf());
        }
        match self.find_position_index(sender, &key) {
            Some(pos_idx) => {
                proof {
                    lemma_find_position_at(opos, sender@, gkey, pos_idx as int);
                    lemma_entry_le_sum(opos, pos_idx as int, gkey);
                }
                let new_entry = {
                    let e = &self.positions[pos_idx];
                    PositionEntry {
                        owner: e.owner.clone(),
                        token_a: e.token_a.clone(),
                        token_b: e.token_b.clone(),
                        position: LiquidityPosition {
                            liquidity: e.position.liquidity + liquidity,
                        },
                    }
                };
                let ghost olde = self.positions@[pos_idx as int];
                self.positions[pos_idx] = new_entry;
                proof {
                    let npos = self.positions@;
                    assert(npos == opos.update(pos_idx as int, new_entry));
                    assert(forall|m: int|
                        0 <= m < npos.len() ==> (#[trigger] npos[m]).owner@ == opos[m].owner@
                            && npos[m].key() == opos[m].key());
                    assert forall|i: int| 0 <= i < npools.len() implies sum_shares(
                        npos,
                        (#[trigger] npools[i]).key(),
                    ) == npools[i].total_liquidity as int by {
                        lemma_sum_update(opos, pos_idx as int, new_entry, npools[i].key());
                        assert(npools[i].key() == opools[i].key());
                        if i != pool_idx {
                            assert(opools[i].key() != gkey);
                            assert(share_of(olde, npools[i].key()) == share_of(
                                new_entry,
                                npools[i].key(),
                            ));
                        }
                    }
                    lemma_find_pool_update(opools, pool_idx as int, new_pool, gkey);
                    assert forall|k: (Seq<char>, Seq<char>)| k != gkey implies #[trigger] spec_find_pool(
                        npools,
                        k,
                    ) == spec_find_pool(opools, k) by {
                        lemma_find_pool_update(opools, pool_idx as int, new_pool, k);
                    }
                    lemma_find_position_update(opos, pos_idx as int, new_entry, sender@, gkey);
                    assert forall|o: Seq<char>, k: (Seq<char>, Seq<char>)|
                        !(o == sender@ && k == gkey) implies #[trigger] spec_find_position(
                        self.positions@,
                        o,
                        k,
                    ) == spec_find_position(opos, o, k) by {
                        lemma_find_position_update(opos, pos_idx as int, new_entry, o, k);
                        if new_entry.is_for(o, k) {
                            assert(o == sender@ && k == gkey);
                        }
                    }
                }
                Ok(liquidity)
            },
            None => {
                proof {
                    lemma_find_position_none(opos, sender@, gkey);
                }
                let entry = PositionEntry {
                    owner: sender.clone(),
                    token_a: key.0,
                    token_b: key.1,
                    position: LiquidityPosition { liquidity },
                };
                self.positions.push(entry);
                proof {
                    let npos = self.positions@;
                    assert(npos == opos.push(entry));
                    assert forall|i: int, j: int| 0 <= i < j < npos.len() implies !((
                    #[trigger] npos[i]).owner@ == (#[trigger] npos[j]).owner@ && npos[i].key()
                        == npos[j].key()) by {
                        if j < opos.len() {
                            assert(npos[i] == opos[i] && npos[j] == opos[j]);
                        } else {
                            assert(npos[i] == opos[i] && npos[j] == entry);
                        }
                    }
                    assert forall|i: int| 0 <= i < npos.len() implies spec_find_pool(
                        npools,
                        (#[trigger] npos[i]).key(),
                    ) is Some by {
                        if i < opos.len() {
                            assert(npos[i] == opos[i]);
                            assert(spec_find_pool(opools, opos[i].key()) is Some);
                            lemma_find_pool_update(
                                opools,
                                pool_idx as int,
                                new_pool,
                                npos[i].key(),
                            );
                        } else {
                            assert(npos[i] == entry);
                            lemma_find_pool_update(opools, pool_idx as int, new_pool, gkey);
                        }
                    }
                    assert forall|i: int| 0 <= i < npools.len() implies sum_shares(
                        npos,
                        (#[trigger] npools[i]).key(),
                    ) == npools[i].total_liquidity as int by {
                        lemma_sum_push(opos, entry, npools[i].key());
                        assert(npools[i].key() == opools[i].key());
                        if i != pool_idx {
                            assert(opools[i].key() != gkey);
                            assert(share_of(entry, npools[i].key()) == 0);
                        }
                    }
                    lemma_find_pool_update(opools, pool_idx as int, new_pool, gkey);
                    assert forall|k: (Seq<char>, Seq<char>)| k != gkey implies #[trigger] spec_find_pool(
                        npools,
                        k,
                    ) == spec_find_pool(opools, k) by {
                        lemma_find_pool_update(opools, pool_idx as int, new_pool, k);
                    }
                    lemma_find_position_push(opos, entry, sender@, gkey);
                    assert forall|o: Seq<char>, k: (Seq<char>, Seq<char>)|
                        !(o == sender@ && k == gkey) implies #[trigger] spec_find_position(
                        npos,
                        o,
                        k,
                    ) == spec_find_position(opos, o, k) by {
                        lemma_find_position_push(opos, entry, o, k);
                        if entry.is_for(o, k) {
                            assert(o == sender@ && k == gkey);
                        }
                    }
                }
                Ok(liquidity)
            },
        }
    }
}

/// Amount of the first asset a share burn pays out: the burned fraction of
/// the reserve, rounded down — the ledger never over-pays on withdrawal.
pub open spec fn spec_withdraw_a(p: Pool, shares: u128) -> int {
    shares * p.reserve_a / (p.total_liquidity as int)
}

/// Amount of the second asset a share burn pays out, rounded down.
pub open spec fn spec_withdraw_b(p: Pool, shares: u128) -> int {
    shares * p.reserve_b / (p.total_liquidity as int)
}

impl DexState {
    /// Burn shares of the sender's position and pay out the proportional,
    /// rounded-down amounts of both reserves. Each minimum guards the payout
    /// of the token the caller named it for, and the two payouts come back
    /// in the caller's token order. Burning every outstanding share drains
    /// the pool to exactly zero on both sides.
    ///
    /// A missing position fails like a missing pool. All-or-nothing: on any
    /// error the ledger is exactly as it was.
    #[verifier::rlimit(100)]
    pub fn execute_remove_liquidity(
        &mut self,
        sender: &String,
        token_a: &str,
        token_b: &str,
        liquidity: u128,
        min_a: u128,
        min_b: u128,
    ) -> (r: Result<(u128, u128), ContractError>)
        requires
            old(self).wf(),
            old(self).spec_pool(spec_pool_key(token_a@, token_b@)) matches Some(p) ==> ({
                &&& liquidity > 0 || p.total_liquidity > 0
                &&& liquidity * p.reserve_a <= u128::MAX
                &&& liquidity * p.reserve_b <= u128::MAX
            }),
        ensures
            final(self).wf(),
            final(self).config == old(self).config,
            r is Err ==> *final(self) == *old(self),
            (r == Err::<(u128, u128), ContractError>(ContractError::PoolNotFound)) <==> (old(
                self,
            ).spec_pool(spec_pool_key(token_a@, token_b@)) is None || old(self).spec_position(
                sender@,
                spec_pool_key(token_a@, token_b@),
            ) is None),
            (r == Err::<(u128, u128), ContractError>(ContractError::InsufficientFunds)) <==> (old(
                self,
            ).spec_pool(spec_pool_key(token_a@, token_b@)) is Some && (old(self).spec_position(
                sender@,
                spec_pool_key(token_a@, token_b@),
            ) matches Some(h) && liquidity > h)),
            (r == Err::<(u128, u128), ContractError>(ContractError::SlippageExceeded)) <==> (old(
                self,
            ).spec_pool(spec_pool_key(token_a@, token_b@)) matches Some(p) && (old(
                self,
            ).spec_position(sender@, spec_pool_key(token_a@, token_b@)) matches Some(h)
                && liquidity <= h && ({
                let mins = spec_by_key_order(token_a@, token_b@, min_a, min_b);
                spec_withdraw_a(p, liquidity) < mins.0 || spec_withdraw_b(p, liquidity) < mins.1
            }))),
            r is Ok <==> (old(self).spec_pool(spec_pool_key(token_a@, token_b@)) matches Some(p)
                && (old(self).spec_position(sender@, spec_pool_key(token_a@, token_b@))
                matches Some(h) && liquidity <= h && ({
                let mins = spec_by_key_order(token_a@, token_b@, min_a, min_b);
                spec_withdraw_a(p, liquidity) >= mins.0 && spec_withdraw_b(p, liquidity) >= mins.1
            }))),
            r matches Ok(amounts) ==> ({
                let key = spec_pool_key(token_a@, token_b@);
                &&& (old(self).spec_pool(key) matches Some(p) && amounts.0 as int
                    == spec_by_key_order(
                    token_a@,
                    token_b@,
                    spec_withdraw_a(p, liquidity),
                    spec_withdraw_b(p, liquidity),
                ).0 && amounts.1 as int == spec_by_key_order(
                    token_a@,
                    token_b@,
                    spec_withdraw_a(p, liquidity),
                    spec_withdraw_b(p, liquidity),
                ).1 && (final(self).spec_pool(key) matches Some(q) && q.token_a@ == p.token_a@
                    && q.token_b@ == p.token_b@ && q.reserve_a == p.reserve_a - spec_withdraw_a(
                    p,
                    liquidity,
                ) && q.reserve_b == p.reserve_b - spec_withdraw_b(p, liquidity)
                    && q.total_liquidity == p.total_liquidity - liquidity))
                &&& spec_held(*final(self), sender@, key) == spec_held(*old(self), sender@, key)
                    - liquidity
                &&& (forall|k: (Seq<char>, Seq<char>)|
                    k != key ==> #[trigger] final(self).spec_pool(k) == old(self).spec_pool(k))
                &&& (forall|o: Seq<char>, k: (Seq<char>, Seq<char>)|
                    !(o == sender@ && k == key) ==> #[trigger] final(self).spec_position(o, k)
                        == old(self).spec_position(o, k))
            }),
    {
        let key = pool_key(token_a, token_b);
        let ghost gkey = spec_pool_key(token_a@, token_b@);
        let pool_idx = match self.find_pool_index(&key) {
            None => {
                proof {
                    lemma_find_pool_none(self.pools@, gkey);
                }
                return Err(ContractError::PoolNotFound);
            },
            Some(i) => i,
        };
        proof {
            lemma_sorted_implies_distinct(self.pools@);
            lemma_find_pool_at(self.pools@, gkey, pool_idx as int);
        }
        let ghost p = self.pools@[pool_idx as int];
        let pos_idx = match self.find_position_index(sender, &key) {
            None => {
                proof {
                    lemma_find_position_none(self.positions@, sender@, gkey);
                }
                return Err(ContractError::PoolNotFound);
            },
            Some(i) => i,
        };
        proof {
            lemma_find_position_at(self.positions@, sender@, gkey, pos_idx as int);
            lemma_entry_le_sum(self.positions@, pos_idx as int, gkey);
        }
        let held = self.positions[pos_idx].position.liquidity;
        if held < liquidity {
            return Err(ContractError::InsufficientFunds);
        }
        assert(liquidity <= held <= p.total_liquidity);
        assert(p.total_liquidity > 0);
        let amount_a = {
            let pl = &self.pools[pool_idx];
            liquidity * pl.reserve_a / pl.total_liquidity
        };
        let amount_b = {
            let pl = &self.pools[pool_idx];
            liquidity * pl.reserve_b / pl.total_liquidity
        };
        // Guard each payout with the minimum the caller named for that
        // token: when canonicalization swaps the tokens it swaps the
        // minimums with them.
        let a_before_b = str_lt(token_a, token_b);
        let (first_min, second_min) = if a_before_b {
            (min_a, min_b)
        } else {
            (min_b, min_a)
        };
        assert((first_min, second_min) == spec_by_key_order(token_a@, token_b@, min_a, min_b));
        if amount_a < first_min || amount_b < second_min {
            return Err(ContractError::SlippageExceeded);
        }
        proof {
            // The payout never exceeds the reserve; a partial burn leaves a
            // live reserve, a full burn leaves exactly zero.
            assert(amount_a <= p.reserve_a && amount_b <= p.reserve_b && (liquidity
                < p.total_liquidity && p.reserve_a > 0 ==> amount_a < p.reserve_a) && (liquidity
                < p.total_liquidity && p.reserve_b > 0 ==> amount_b < p.reserve_b) && (liquidity
                == p.total_liquidity ==> amount_a == p.reserve_a && amount_b == p.reserve_b))
                by (nonlinear_arith)
                requires
                    0 < p.total_liquidity,
                    liquidity <= p.total_liquidity,
                    amount_a == liquidity * p.reserve_a / (p.total_liquidity as int),
                    amount_b == liquidity * p.reserve_b / (p.total_liquidity as int),
                    p.reserve_a >= 0,
                    p.reserve_b >= 0;
        }
        let ghost opools = self.pools@;
        let ghost opos = self.positions@;
        let new_pool = {
            let pl = &self.pools[pool_idx];
            Pool {
                token_a: pl.token_a.clone(),
                token_b: pl.token_b.clone(),
                reserve_a: pl.reserve_a - amount_a,
                reserve_b: pl.reserve_b - amount_b,
                total_liquidity: pl.total_liquidity - liquidity,
            }
        };
        assert(new_pool.key() == gkey && new_pool.wf());
        self.pools[pool_idx] = new_pool;
        let new_entry = {
            let e = &self.positions[pos_idx];
            PositionEntry {
                owner: e.owner.clone(),
                token_a: e.token_a.clone(),
                token_b: e.token_b.clone(),
                position: LiquidityPosition { liquidity: e.position.liquidity - liquidity },
            }
        };
        let ghost olde = opos[pos_idx as int];
        self.positions[pos_idx] = new_entry;
        proof {
            let npools = self.pools@;
            let npos = self.positions@;
            assert(npools == opools.update(pool_idx as int, new_pool));
            assert(npos == opos.update(pos_idx as int, new_entry));
            assert(forall|m: int|
                0 <= m < npools.len() ==> (#[trigger] npools[m]).key() == opools[m].key()
                    && npools[m].wf());
            assert(forall|m: int|
                0 <= m < npos.len() ==> (#[trigger] npos[m]).owner@ == opos[m].owner@
                    && npos[m].key() == opos[m].key());
            assert forall|i: int| 0 <= i < npools.len() implies sum_shares(
                npos,
                (#[trigger] npools[i]).key(),
            ) == npools[i].total_liquidity as int by {
                lemma_sum_update(opos, pos_idx as int, new_entry, npools[i].key());
                assert(npools[i].key() == opools[i].key());
                if i != pool_idx {
                    assert(opools[i].key() != gkey);
                    assert(share_of(olde, npools[i].key()) == share_of(
                        new_entry,
                        npools[i].key(),
                    ));
                }
            }
            lemma_find_pool_update(opools, pool_idx as int, new_pool, gkey);
            assert forall|k: (Seq<char>, Seq<char>)| k != gkey implies #[trigger] spec_find_pool(
                npools,
                k,
            ) == spec_find_pool(opools, k) by {
                lemma_find_pool_update(opools, pool_idx as int, new_pool, k);
            }
            lemma_find_position_update(opos, pos_idx as int, new_entry, sender@, gkey);
            assert forall|o: Seq<char>, k: (Seq<char>, Seq<char>)|
                !(o == sender@ && k == gkey) implies #[trigger] spec_find_position(npos, o, k)
                == spec_find_position(opos, o, k) by {
                lemma_find_position_update(opos, pos_idx as int, new_entry, o, k);
                if new_entry.is_for(o, k) {
                    assert(o == sender@ && k == gkey);
                }
            }
        }
        // Hand the payouts back in the caller's token order.
        if a_before_b {
            Ok((amount_a, amount_b))
        } else {
            Ok((amount_b, amount_a))
        }
    }
}

/// The (input, output) reserves of a pool as seen from the swapped-in token:
/// a swap of the pool's first token sells into `reserve_a`, anything else
/// sells into `reserve_b`.
pub open spec fn spec_reserves_for(p: Pool, token_in: Seq<char>) -> (u128, u128) {
    if token_in == p.token_a@ {
        (p.reserve_a, p.reserve_b)
    } else {
        (p.reserve_b, p.reserve_a)
    }
}

impl DexState {
    /// Swap a fixed input amount against the pool of the two named tokens.
    /// The full input, fee included, enters the input reserve; the output
    /// reserve pays out the constant-product amount priced on the post-fee
    /// input. Total shares do not move.
    ///
    /// All-or-nothing: on any error the ledger is exactly as it was.
    #[verifier::rlimit(100)]
    pub fn execute_swap(
        &mut self,
        token_in: &str,
        token_out: &str,
        amount_in: u128,
        min_amount_out: u128,
    ) -> (r: Result<(u128, u128), ContractError>)
        requires
            old(self).wf(),
            old(self).spec_pool(spec_pool_key(token_in@, token_out@)) matches Some(p) ==> ({
                let ins_outs = spec_reserves_for(p, token_in@);
                &&& p.total_liquidity > 0
                &&& amount_in * (10000 - old(self).config.fee_rate) <= u128::MAX
                &&& spec_after_fee(amount_in, old(self).config.fee_rate) * ins_outs.1
                    <= u128::MAX
                &&& ins_outs.0 + amount_in <= u128::MAX
            }),
        ensures
            final(self).wf(),
            final(self).config == old(self).config,
            r is Err ==> *final(self) == *old(self),
            (r == Err::<(u128, u128), ContractError>(ContractError::ZeroAmount)) <==> amount_in
                == 0,
            (r == Err::<(u128, u128), ContractError>(ContractError::PoolNotFound)) <==> (amount_in
                > 0 && old(self).spec_pool(spec_pool_key(token_in@, token_out@)) is None),
            (r == Err::<(u128, u128), ContractError>(ContractError::SlippageExceeded)) <==> (
            amount_in > 0 && (old(self).spec_pool(spec_pool_key(token_in@, token_out@))
                matches Some(p) && spec_amount_out(
                spec_reserves_for(p, token_in@).0,
                spec_reserves_for(p, token_in@).1,
                amount_in,
                old(self).config.fee_rate,
            ) < min_amount_out)),
            r is Ok <==> (amount_in > 0 && (old(self).spec_pool(spec_pool_key(token_in@, token_out@))
                matches Some(p) && spec_amount_out(
                spec_reserves_for(p, token_in@).0,
                spec_reserves_for(p, token_in@).1,
                amount_in,
                old(self).config.fee_rate,
            ) >= min_amount_out)),
            r matches Ok(out_fee) ==> ({
                let key = spec_pool_key(token_in@, token_out@);
                let fee_rate = old(self).config.fee_rate;
                &&& (old(self).spec_pool(key) matches Some(p) && ({
                    let reserve_in = spec_reserves_for(p, token_in@).0;
                    let reserve_out = spec_reserves_for(p, token_in@).1;
                    &&& out_fee.0 == spec_amount_out(reserve_in, reserve_out, amount_in, fee_rate)
                    &&& out_fee.0 < reserve_out
                    &&& out_fee.1 == spec_fee(amount_in, fee_rate)
                    &&& (final(self).spec_pool(key) matches Some(q) && q.token_a@ == p.token_a@
                        && q.token_b@ == p.token_b@ && q.total_liquidity == p.total_liquidity && (
                        if token_in@ == p.token_a@ {
                            q.reserve_a == p.reserve_a + amount_in && q.reserve_b == p.reserve_b
                                - out_fee.0
                        } else {
                            q.reserve_b == p.reserve_b + amount_in && q.reserve_a == p.reserve_a
                                - out_fee.0
                        }))
                }))
                &&& (forall|k: (Seq<char>, Seq<char>)|
                    k != key ==> #[trigger] final(self).spec_pool(k) == old(self).spec_pool(k))
                &&& final(self).positions@ == old(self).positions@
            }),
    {
        if amount_in == 0 {
            return Err(ContractError::ZeroAmount);
        }
        let key = pool_key(token_in, token_out);
        let ghost gkey = spec_pool_key(token_in@, token_out@);
        let pool_idx = match self.find_pool_index(&key) {
            None => {
                proof {
                    lemma_find_pool_none(self.pools@, gkey);
                }
                return Err(ContractError::PoolNotFound);
            },
            Some(i) => i,
        };
        proof {
            lemma_sorted_implies_distinct(self.pools@);
            lemma_find_pool_at(self.pools@, gkey, pool_idx as int);
        }
        let ghost p = self.pools@[pool_idx as int];
        let fee_rate = self.config.fee_rate;
        let (in_is_a, reserve_in, reserve_out) = {
            let pl = &self.pools[pool_idx];
            assert(*pl == p);
            let lt1 = str_lt(token_in, pl.token_a.as_str());
            let lt2 = str_lt(pl.token_a.as_str(), token_in);
            proof {
                lemma_lex_total(token_in@, pl.token_a@);
                if lt1 {
                    crate::lex::lemma_lex_asymmetric(token_in@, pl.token_a@);
                }
                if lt2 {
                    crate::lex::lemma_lex_asymmetric(pl.token_a@, token_in@);
                }
            }
            if !lt1 && !lt2 {
                (true, pl.reserve_a, pl.reserve_b)
            } else {
                (false, pl.reserve_b, pl.reserve_a)
            }
        };
        assert((reserve_in, reserve_out) == spec_reserves_for(p, token_in@));
        let priced = crate::pricing::price_swap(reserve_in, reserve_out, amount_in, fee_rate);
        let amount_out = priced.0;
        let fee = priced.1;
        if amount_out < min_amount_out {
            return Err(ContractError::SlippageExceeded);
        }
        let ghost opools = self.pools@;
        let ghost opos = self.positions@;
        let new_pool = {
            let pl = &self.pools[pool_idx];
            if in_is_a {
                Pool {
                    token_a: pl.token_a.clone(),
                    token_b: pl.token_b.clone(),
                    reserve_a: pl.reserve_a + amount_in,
                    reserve_b: pl.reserve_b - amount_out,
                    total_liquidity: pl.total_liquidity,
                }
            } else {
                Pool {
                    token_a: pl.token_a.clone(),
                    token_b: pl.token_b.clone(),
                    reserve_a: pl.reserve_a - amount_out,
                    reserve_b: pl.reserve_b + amount_in,
                    total_liquidity: pl.total_liquidity,
                }
            }
        };
        assert(new_pool.key() == gkey && new_pool.wf());
        self.pools[pool_idx] = new_pool;
        proof {
            let npools = self.pools@;
            assert(npools == opools.update(pool_idx as int, new_pool));
            assert(forall|m: int|
                0 <= m < npools.len() ==> (#[trigger] npools[m]).key() == opools[m].key()
                    && npools[m].wf());
            assert forall|i: int| 0 <= i < npools.len() implies sum_shares(
                opos,
                (#[trigger] npools[i]).key(),
            ) == npools[i].total_liquidity as int by {
                assert(npools[i].key() == opools[i].key());
            }
            lemma_find_pool_update(opools, pool_idx as int, new_pool, gkey);
            assert forall|k: (Seq<char>, Seq<char>)| k != gkey implies #[trigger] spec_find_pool(
                npools,
                k,
            ) == spec_find_pool(opools, k) by {
                lemma_find_pool_update(opools, pool_idx as int, new_pool, k);
            }
        }
        Ok((amount_out, fee))
    }
}

impl DexState {
    /// Hand the admin role to another account. Only the current admin may.
    pub fn execute_update_admin(&mut self, sender: &String, admin: String) -> (r: Result<
        (),
        ContractError,
    >)
        requires
            old(self).wf(),
        ensures
            final(self).wf(),
            r is Ok <==> sender@ == old(self).config.admin@,
            r is Err ==> r == Err::<(), ContractError>(ContractError::Unauthorized) && *final(self)
                == *old(self),
            r is Ok ==> final(self).config.admin@ == admin@ && final(self).config.fee_rate == old(
                self,
            ).config.fee_rate && final(self).pools@ == old(self).pools@ && final(self).positions@
                == old(self).positions@,
    {
        if !(*sender == self.config.admin) {
            return Err(ContractError::Unauthorized);
        }
        self.config.admin = admin;
        Ok(())
    }

    /// Set the swap fee, in basis points below 100%. Only the admin may.
    pub fn execute_update_fee_rate(&mut self, sender: &String, fee_rate: u128) -> (r: Result<
        (),
        ContractError,
    >)
        requires
            old(self).wf(),
            fee_rate < 10000,
        ensures
            final(self).wf(),
            r is Ok <==> sender@ == old(self).config.admin@,
            r is Err ==> r == Err::<(), ContractError>(ContractError::Unauthorized) && *final(self)
                == *old(self),
            r is Ok ==> final(self).config.fee_rate == fee_rate && final(self).config.admin@
                == old(self).config.admin@ && final(self).pools@ == old(self).pools@
                && final(self).positions@ == old(self).positions@,
    {
        if !(*sender == self.config.admin) {
            return Err(ContractError::Unauthorized);
        }
        self.config.fee_rate = fee_rate;
        Ok(())
    }
}

/// Conservation law: in a well-formed ledger the sum of all position shares
/// over a pool's pair equals that pool's total shares. Every operation here
/// requires a well-formed ledger and re-establishes well-formedness, so this
/// holds after every operation, for every sequence of operations.
pub proof fn lemma_conservation(s: DexState, key: (Seq<char>, Seq<char>))
    requires
        s.wf(),
    ensures
        s.spec_pool(key) matches Some(p) ==> sum_shares(s.positions@, key)
            == p.total_liquidity as int,
{
    if s.spec_pool(key) is Some {
        lemma_find_pool_none(s.pools@, key);
        let i = choose|i: int|
            0 <= i < s.pools@.len() && (#[trigger] s.pools@[i].key()) == key;
        lemma_sorted_implies_distinct(s.pools@);
        lemma_find_pool_at(s.pools@, key, i);
    }
}

/// Whether a pool's key comes strictly before a canonical pair key.
fn pool_before(p: &Pool, key: &(String, String)) -> (r: bool)
    ensures
        r == key_lt(p.key(), (key.0@, key.1@)),
{
    if str_lt(p.token_a.as_str(), key.0.as_str()) {
        true
    } else if str_lt(key.0.as_str(), p.token_a.as_str()) {
        false
    } else {
        proof {
            lemma_lex_total(p.token_a@, key.0@);
        }
        str_lt(p.token_b.as_str(), key.1.as_str())
    }
}

} // verus!
