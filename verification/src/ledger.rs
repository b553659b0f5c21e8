//! The sequence-backed stores behind the ledger.
//!
//! Pools live in a vector sorted by canonical pair key; positions live in a
//! vector with pairwise-distinct (owner, pair) keys. The spec functions here
//! read those vectors as maps — first match by key — and the lemmas say how
//! a point update, an insertion, or an append changes every lookup and the
//! per-pair share sum.

use vstd::prelude::*;

use crate::state::Pool;
use crate::state::PositionEntry;
use crate::state::key_lt;

verus! {

/// First pool with the given canonical key, if any.
pub open spec fn spec_find_pool(pools: Seq<Pool>, key: (Seq<char>, Seq<char>)) -> Option<Pool>
    decreases pools.len(),
{
    if pools.len() == 0 {
        None
    } else if pools[0].key() == key {
        Some(pools[0])
    } else {
        spec_find_pool(pools.drop_first(), key)
    }
}

/// No two pools share a canonical key.
pub open spec fn pool_keys_distinct(pools: Seq<Pool>) -> bool {
    forall|i: int, j: int|
        #![trigger pools[i].key(), pools[j].key()]
        0 <= i < j < pools.len() ==> pools[i].key() != pools[j].key()
}

/// Pools are in strictly ascending canonical key order.
pub open spec fn pools_sorted(pools: Seq<Pool>) -> bool {
    forall|i: int, j: int|
        #![trigger pools[i].key(), pools[j].key()]
        0 <= i < j < pools.len() ==> key_lt(pools[i].key(), pools[j].key())
}

/// A strictly sorted pool store has pairwise-distinct keys.
pub proof fn lemma_sorted_implies_distinct(pools: Seq<Pool>)
    requires
        pools_sorted(pools),
    ensures
        pool_keys_distinct(pools),
{
    assert forall|i: int, j: int|
        0 <= i < j < pools.len() implies (#[trigger] pools[i].key()) != (#[trigger] pools[j].key()) by {
        crate::state::lemma_key_lt_asymmetric(pools[i].key(), pools[j].key());
    }
}

/// A lookup misses exactly when no pool has the key.
pub proof fn lemma_find_pool_none(pools: Seq<Pool>, key: (Seq<char>, Seq<char>))
    ensures
        spec_find_pool(pools, key) is None <==> (forall|i: int|
            0 <= i < pools.len() ==> (#[trigger] pools[i].key()) != key),
    decreases pools.len(),
{
    if pools.len() > 0 {
        lemma_find_pool_none(pools.drop_first(), key);
        if spec_find_pool(pools, key) is None {
            assert forall|i: int|
                0 <= i < pools.len() implies (#[trigger] pools[i].key()) != key by {
                if i > 0 {
                    assert(pools.drop_first()[i - 1] == pools[i]);
                }
            }
        } else {
            if pools[0].key() != key {
                let rest = pools.drop_first();
                let j = choose|j: int| 0 <= j < rest.len() && (#[trigger] rest[j].key()) == key;
                assert(rest[j] == pools[j + 1]);
                assert(pools[j + 1].key() == key);
            }
        }
    }
}

/// With distinct keys, a lookup returns exactly the pool standing at the
/// matching index.
pub proof fn lemma_find_pool_at(pools: Seq<Pool>, key: (Seq<char>, Seq<char>), i: int)
    requires
        pool_keys_distinct(pools),
        0 <= i < pools.len(),
        pools[i].key() == key,
    ensures
        spec_find_pool(pools, key) == Some(pools[i]),
    decreases pools.len(),
{
    if i > 0 {
        assert(pools[0].key() != key);
        assert(forall|p: int, q: int|
            #![trigger pools.drop_first()[p].key(), pools.drop_first()[q].key()]
            0 <= p < q < pools.drop_first().len() ==> pools.drop_first()[p] == pools[p + 1]
                && pools.drop_first()[q] == pools[q + 1]);
        lemma_find_pool_at(pools.drop_first(), key, i - 1);
    }
}

/// Replacing the pool at one index, key unchanged, changes exactly that
/// key's lookup.
pub proof fn lemma_find_pool_update(
    pools: Seq<Pool>,
    i: int,
    p: Pool,
    key: (Seq<char>, Seq<char>),
)
    requires
        pool_keys_distinct(pools),
        0 <= i < pools.len(),
        p.key() == pools[i].key(),
    ensures
        spec_find_pool(pools.update(i, p), key) == (if key == p.key() {
            Some(p)
        } else {
            spec_find_pool(pools, key)
        }),
    decreases pools.len(),
{
    let up = pools.update(i, p);
    if i == 0 {
        assert(up[0] == p);
        assert(up.drop_first() =~= pools.drop_first());
    } else {
        assert(up[0] == pools[0]);
        assert(pools[0].key() != p.key());
        assert(up.drop_first() =~= pools.drop_first().update(i - 1, p));
        assert(forall|q: int, r: int|
            #![trigger pools.drop_first()[q].key(), pools.drop_first()[r].key()]
            0 <= q < r < pools.drop_first().len() ==> pools.drop_first()[q] == pools[q + 1]
                && pools.drop_first()[r] == pools[r + 1]);
        assert(pools.drop_first()[i - 1] == pools[i]);
        lemma_find_pool_update(pools.drop_first(), i - 1, p, key);
    }
}

/// Inserting a pool under a fresh key changes exactly that key's lookup.
pub proof fn lemma_find_pool_insert(
    pools: Seq<Pool>,
    i: int,
    p: Pool,
    key: (Seq<char>, Seq<char>),
)
    requires
        0 <= i <= pools.len(),
        forall|j: int| 0 <= j < pools.len() ==> (#[trigger] pools[j].key()) != p.key(),
    ensures
        spec_find_pool(pools.insert(i, p), key) == (if key == p.key() {
            Some(p)
        } else {
            spec_find_pool(pools, key)
        }),
    decreases pools.len(),
{
    let ins = pools.insert(i, p);
    if i == 0 {
        assert(ins[0] == p);
        assert(ins.drop_first() =~= pools);
    } else {
        assert(ins[0] == pools[0]);
        assert(pools[0].key() != p.key());
        assert(ins.drop_first() =~= pools.drop_first().insert(i - 1, p));
        assert(forall|j: int|
            0 <= j < pools.drop_first().len() ==> #[trigger] pools.drop_first()[j] == pools[j
                + 1]);
        lemma_find_pool_insert(pools.drop_first(), i - 1, p, key);
    }
}

/// Shares held by the first position for this owner and pair, if any.
pub open spec fn spec_find_position(
    ps: Seq<PositionEntry>,
    owner: Seq<char>,
    key: (Seq<char>, Seq<char>),
) -> Option<u128>
    decreases ps.len(),
{
    if ps.len() == 0 {
        None
    } else if ps[0].is_for(owner, key) {
        Some(ps[0].position.liquidity)
    } else {
        spec_find_position(ps.drop_first(), owner, key)
    }
}

/// No two position entries share an (owner, pair) key.
pub open spec fn position_keys_distinct(ps: Seq<PositionEntry>) -> bool {
    forall|i: int, j: int|
        #![trigger ps[i].owner, ps[j].owner, ps[i].key(), ps[j].key()]
        0 <= i < j < ps.len() ==> !(ps[i].owner@ == ps[j].owner@ && ps[i].key() == ps[j].key())
}

/// What one entry adds to the share total of a pair.
pub open spec fn share_of(e: PositionEntry, key: (Seq<char>, Seq<char>)) -> int {
    if e.key() == key {
        e.position.liquidity as int
    } else {
        0
    }
}

/// Sum of all shares held against one pair, over every owner.
pub open spec fn sum_shares(ps: Seq<PositionEntry>, key: (Seq<char>, Seq<char>)) -> int
    decreases ps.len(),
{
    if ps.len() == 0 {
        0
    } else {
        share_of(ps[0], key) + sum_shares(ps.drop_first(), key)
    }
}

/// A lookup misses exactly when no entry carries the (owner, pair) key.
pub proof fn lemma_find_position_none(
    ps: Seq<PositionEntry>,
    owner: Seq<char>,
    key: (Seq<char>, Seq<char>),
)
    ensures
        spec_find_position(ps, owner, key) is None <==> (forall|i: int|
            0 <= i < ps.len() ==> !(#[trigger] ps[i]).is_for(owner, key)),
    decreases ps.len(),
{
    if ps.len() > 0 {
        lemma_find_position_none(ps.drop_first(), owner, key);
        if spec_find_position(ps, owner, key) is None {
            assert forall|i: int| 0 <= i < ps.len() implies !(#[trigger] ps[i]).is_for(
                owner,
                key,
            ) by {
                if i > 0 {
                    assert(ps.drop_first()[i - 1] == ps[i]);
                }
            }
        } else {
            if !ps[0].is_for(owner, key) {
                let rest = ps.drop_first();
                let j = choose|j: int| 0 <= j < rest.len() && (#[trigger] rest[j]).is_for(
                    owner,
                    key,
                );
                assert(rest[j] == ps[j + 1]);
                assert(ps[j + 1].is_for(owner, key));
            }
        }
    }
}

/// With distinct keys, a lookup returns exactly the shares standing at the
/// matching index.
pub proof fn lemma_find_position_at(
    ps: Seq<PositionEntry>,
    owner: Seq<char>,
    key: (Seq<char>, Seq<char>),
    i: int,
)
    requires
        position_keys_distinct(ps),
        0 <= i < ps.len(),
        ps[i].is_for(owner, key),
    ensures
        spec_find_position(ps, owner, key) == Some(ps[i].position.liquidity),
    decreases ps.len(),
{
    if i > 0 {
        assert(!ps[0].is_for(owner, key));
        assert(forall|q: int|
            0 <= q < ps.drop_first().len() ==> #[trigger] ps.drop_first()[q] == ps[q + 1]);
        lemma_find_position_at(ps.drop_first(), owner, key, i - 1);
    }
}

/// Replacing the entry at one index, key unchanged, changes exactly that
/// key's lookup.
pub proof fn lemma_find_position_update(
    ps: Seq<PositionEntry>,
    i: int,
    e: PositionEntry,
    owner: Seq<char>,
    key: (Seq<char>, Seq<char>),
)
    requires
        position_keys_distinct(ps),
        0 <= i < ps.len(),
        e.owner@ == ps[i].owner@,
        e.key() == ps[i].key(),
    ensures
        spec_find_position(ps.update(i, e), owner, key) == (if e.is_for(owner, key) {
            Some(e.position.liquidity)
        } else {
            spec_find_position(ps, owner, key)
        }),
    decreases ps.len(),
{
    let up = ps.update(i, e);
    if i == 0 {
        assert(up[0] == e);
        assert(up.drop_first() =~= ps.drop_first());
        if !e.is_for(owner, key) && ps[0].is_for(owner, key) {
            assert(false);
        }
    } else {
        assert(up[0] == ps[0]);
        assert(!(ps[0].owner@ == e.owner@ && ps[0].key() == e.key()));
        assert(up.drop_first() =~= ps.drop_first().update(i - 1, e));
        assert(forall|q: int|
            0 <= q < ps.drop_first().len() ==> #[trigger] ps.drop_first()[q] == ps[q + 1]);
        lemma_find_position_update(ps.drop_first(), i - 1, e, owner, key);
    }
}

/// Appending an entry under a fresh (owner, pair) key changes exactly that
/// key's lookup.
pub proof fn lemma_find_position_push(
    ps: Seq<PositionEntry>,
    e: PositionEntry,
    owner: Seq<char>,
    key: (Seq<char>, Seq<char>),
)
    requires
        forall|j: int|
            0 <= j < ps.len() ==> !((#[trigger] ps[j]).owner@ == e.owner@ && ps[j].key()
                == e.key()),
    ensures
        spec_find_position(ps.push(e), owner, key) == (if e.is_for(owner, key) {
            Some(e.position.liquidity)
        } else {
            spec_find_position(ps, owner, key)
        }),
    decreases ps.len(),
{
    let pu = ps.push(e);
    if ps.len() == 0 {
        assert(pu.len() == 1);
        assert(pu[0] == e);
        assert(pu.drop_first().len() == 0);
        assert(spec_find_position(pu.drop_first(), owner, key) is None);
        assert(spec_find_position(ps, owner, key) is None);
        if e.is_for(owner, key) {
            assert(spec_find_position(pu, owner, key) == Some(e.position.liquidity));
        } else {
            assert(spec_find_position(pu, owner, key) is None);
        }
    } else {
        assert(pu[0] == ps[0]);
        assert(pu.drop_first() =~= ps.drop_first().push(e));
        assert(forall|q: int|
            0 <= q < ps.drop_first().len() ==> #[trigger] ps.drop_first()[q] == ps[q + 1]);
        if e.is_for(owner, key) && ps[0].is_for(owner, key) {
            assert(false);
        }
        lemma_find_position_push(ps.drop_first(), e, owner, key);
        assert(spec_find_position(pu.drop_first(), owner, key) == (if e.is_for(owner, key) {
            Some(e.position.liquidity)
        } else {
            spec_find_position(ps.drop_first(), owner, key)
        }));
    }
}

/// Share sums are never negative.
pub proof fn lemma_sum_nonneg(ps: Seq<PositionEntry>, key: (Seq<char>, Seq<char>))
    ensures
        sum_shares(ps, key) >= 0,
    decreases ps.len(),
{
    if ps.len() > 0 {
        lemma_sum_nonneg(ps.drop_first(), key);
    }
}

/// Replacing the entry at one index moves the pair's sum by the
/// contribution difference.
pub proof fn lemma_sum_update(
    ps: Seq<PositionEntry>,
    i: int,
    e: PositionEntry,
    key: (Seq<char>, Seq<char>),
)
    requires
        0 <= i < ps.len(),
    ensures
        sum_shares(ps.update(i, e), key) == sum_shares(ps, key) - share_of(ps[i], key) + share_of(
            e,
            key,
        ),
    decreases ps.len(),
{
    let up = ps.update(i, e);
    if i == 0 {
        assert(up[0] == e);
        assert(up.drop_first() =~= ps.drop_first());
    } else {
        assert(up[0] == ps[0]);
        assert(up.drop_first() =~= ps.drop_first().update(i - 1, e));
        assert(ps.drop_first()[i - 1] == ps[i]);
        lemma_sum_update(ps.drop_first(), i - 1, e, key);
    }
}

/// Appending an entry adds its contribution to the pair's sum.
pub proof fn lemma_sum_push(ps: Seq<PositionEntry>, e: PositionEntry, key: (Seq<char>, Seq<char>))
    ensures
        sum_shares(ps.push(e), key) == sum_shares(ps, key) + share_of(e, key),
    decreases ps.len(),
{
    let pu = ps.push(e);
    if ps.len() == 0 {
        assert(pu.len() == 1);
        assert(pu[0] == e);
        assert(pu.drop_first().len() == 0);
        assert(sum_shares(pu.drop_first(), key) == 0);
        assert(sum_shares(ps, key) == 0);
    } else {
        assert(pu[0] == ps[0]);
        assert(pu.drop_first() =~= ps.drop_first().push(e));
        lemma_sum_push(ps.drop_first(), e, key);
        assert(sum_shares(pu.drop_first(), key) == sum_shares(ps.drop_first(), key) + share_of(
            e,
            key,
        ));
    }
}

/// A pair with no entries has a zero sum.
pub proof fn lemma_sum_zero(ps: Seq<PositionEntry>, key: (Seq<char>, Seq<char>))
    requires
        forall|i: int| 0 <= i < ps.len() ==> (#[trigger] ps[i].key()) != key,
    ensures
        sum_shares(ps, key) == 0,
    decreases ps.len(),
{
    if ps.len() > 0 {
        assert(forall|q: int|
            0 <= q < ps.drop_first().len() ==> #[trigger] ps.drop_first()[q] == ps[q + 1]);
        lemma_sum_zero(ps.drop_first(), key);
    }
}

/// No single position exceeds the pair's sum.
pub proof fn lemma_entry_le_sum(ps: Seq<PositionEntry>, i: int, key: (Seq<char>, Seq<char>))
    requires
        0 <= i < ps.len(),
        ps[i].key() == key,
    ensures
        ps[i].position.liquidity as int <= sum_shares(ps, key),
    decreases ps.len(),
{
    lemma_sum_nonneg(ps.drop_first(), key);
    if i > 0 {
        assert(ps.drop_first()[i - 1] == ps[i]);
        lemma_entry_le_sum(ps.drop_first(), i - 1, key);
    }
}

} // verus!
