//! Ledger record types and the canonical pair key.
//!
//! A pool is addressed by its canonically ordered pair of token identifiers:
//! the lexicographically smaller token always comes first, whatever order a
//! caller names the two assets in.

use vstd::prelude::*;

use crate::lex::lex_lt;
use crate::lex::lemma_lex_asymmetric;
use crate::lex::lemma_lex_total;
use crate::lex::lemma_lex_transitive;
use crate::lex::str_lt;

verus! {

/// Process-wide configuration: the admin account and the swap fee in basis
/// points, applied uniformly to every swap when it executes.
pub struct Config {
    pub admin: String,
    pub fee_rate: u128,
}

impl Config {
    /// The fee rate is a basis-points fraction, strictly below 100%.
    pub open spec fn wf(self) -> bool {
        self.fee_rate < 10000
    }
}

/// Reserve state of one trading pair, with the total of all outstanding
/// liquidity shares over it.
pub struct Pool {
    pub token_a: String,
    pub token_b: String,
    pub reserve_a: u128,
    pub reserve_b: u128,
    pub total_liquidity: u128,
}

impl Pool {
    /// The canonical pair key this pool is addressed by.
    pub open spec fn key(self) -> (Seq<char>, Seq<char>) {
        (self.token_a@, self.token_b@)
    }

    /// Tokens are canonically ordered, and a pool with outstanding shares
    /// always has meaningful reserves on both sides; a fully drained pool
    /// has zero reserves on both.
    pub open spec fn wf(self) -> bool {
        &&& lex_lt(self.token_a@, self.token_b@)
        &&& (self.total_liquidity > 0 <==> self.reserve_a > 0)
        &&& (self.total_liquidity > 0 <==> self.reserve_b > 0)
    }
}

/// One account's claim on one pool: a non-negative count of liquidity shares.
pub struct LiquidityPosition {
    pub liquidity: u128,
}

/// A position record together with the key it is addressed by:
/// the owner account and the canonical pair.
pub struct PositionEntry {
    pub owner: String,
    pub token_a: String,
    pub token_b: String,
    pub position: LiquidityPosition,
}

impl PositionEntry {
    /// The canonical pair key of the pool this position is against.
    pub open spec fn key(self) -> (Seq<char>, Seq<char>) {
        (self.token_a@, self.token_b@)
    }

    /// Whether this entry is the one addressed by `owner` over `key`.
    pub open spec fn is_for(self, owner: Seq<char>, key: (Seq<char>, Seq<char>)) -> bool {
        self.owner@ == owner && self.key() == key
    }
}

/// Canonical ordering of a caller-supplied pair: the lexicographically
/// smaller token first.
pub open spec fn spec_pool_key(a: Seq<char>, b: Seq<char>) -> (Seq<char>, Seq<char>) {
    if lex_lt(a, b) {
        (a, b)
    } else {
        (b, a)
    }
}

/// A pair of per-token values — one for `token_a` and one for `token_b` as
/// the caller named them — reordered to canonical key order, exactly as
/// `spec_pool_key` reorders the tokens themselves. The reorder is its own
/// inverse: applied to canonical-order values it yields caller order.
pub open spec fn spec_by_key_order<T>(
    token_a: Seq<char>,
    token_b: Seq<char>,
    for_a: T,
    for_b: T,
) -> (T, T) {
    if lex_lt(token_a, token_b) {
        (for_a, for_b)
    } else {
        (for_b, for_a)
    }
}

/// Strict order on canonical pair keys: by first token, then by second.
pub open spec fn key_lt(a: (Seq<char>, Seq<char>), b: (Seq<char>, Seq<char>)) -> bool {
    ||| lex_lt(a.0, b.0)
    ||| (a.0 == b.0 && lex_lt(a.1, b.1))
}

/// The key order is total.
pub proof fn lemma_key_lt_total(a: (Seq<char>, Seq<char>), b: (Seq<char>, Seq<char>))
    ensures
        key_lt(a, b) || key_lt(b, a) || a == b,
{
    lemma_lex_total(a.0, b.0);
    lemma_lex_total(a.1, b.1);
    if a.0 == b.0 && a.1 == b.1 {
        assert(a == b);
    }
}

/// The key order is asymmetric, hence also irreflexive.
pub proof fn lemma_key_lt_asymmetric(a: (Seq<char>, Seq<char>), b: (Seq<char>, Seq<char>))
    requires
        key_lt(a, b),
    ensures
        !key_lt(b, a),
        a != b,
{
    if lex_lt(a.0, b.0) {
        lemma_lex_asymmetric(a.0, b.0);
    } else {
        lemma_lex_asymmetric(a.1, b.1);
    }
}

/// The key order is transitive.
pub proof fn lemma_key_lt_transitive(
    a: (Seq<char>, Seq<char>),
    b: (Seq<char>, Seq<char>),
    c: (Seq<char>, Seq<char>),
)
    requires
        key_lt(a, b),
        key_lt(b, c),
    ensures
        key_lt(a, c),
{
    if lex_lt(a.0, b.0) && lex_lt(b.0, c.0) {
        lemma_lex_transitive(a.0, b.0, c.0);
    } else if a.0 == b.0 && b.0 == c.0 {
        lemma_lex_transitive(a.1, b.1, c.1);
    }
}

/// Canonical pair key for two tokens, independent of argument order: the
/// lexicographically smaller token is always the first element.
pub fn pool_key(token_a: &str, token_b: &str) -> (key: (String, String))
    ensures
        (key.0@, key.1@) == spec_pool_key(token_a@, token_b@),
{
    if str_lt(token_a, token_b) {
        (token_a.to_owned(), token_b.to_owned())
    } else {
        (token_b.to_owned(), token_a.to_owned())
    }
}

/// Key of one account's position over one pair: the owner, then the
/// canonical pair key.
pub fn liquidity_key(user: &str, token_a: &str, token_b: &str) -> (key: (String, String, String))
    ensures
        key.0@ == user@,
        (key.1@, key.2@) == spec_pool_key(token_a@, token_b@),
{
    let (a, b) = pool_key(token_a, token_b);
    (user.to_owned(), a, b)
}

} // verus!
