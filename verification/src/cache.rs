//! The dual-tier trie-node cache and its mode-switching protocol.
//!
//! Entries live in one of two tiers: a capacity-bounded shard tier with
//! least-recently-used eviction, and an unbounded chunk tier that pins
//! every node touched during one unit of work. The mode decides where
//! new entries land; the cost classification says whether a retrieval
//! was already paid for (chunk tier) or not.

use vstd::prelude::*;
use crate::hash::CryptoHash;
use crate::kvlist::{
    kv_find, kv_get, kv_insert, kv_remove, kv_view, lemma_at_unique, lemma_drop_last_effect,
    lemma_front_effect, lemma_push_effect, lemma_remove_effect, opt_bytes, tier_at, tier_distinct,
    tier_get, tier_has, tier_remove,
};
use crate::refcount::{decode_value_with_rc, spec_payload};
use crate::shard_lru::{
    lru_capacity, lru_clear, lru_entries, lru_get, lru_new, lru_pop, lru_put, lru_put_model,
    lru_touch,
};

verus! {

/// Values at or above this size (in bytes) are never cached; trie inner
/// nodes are always smaller than this.
pub const TRIE_LIMIT_CACHED_VALUE_SIZE: usize = 1000;

/// Default capacity of the shard tier.
pub const TRIE_MAX_CACHE_SIZE: usize = 100000;

/// Which tier newly put or newly promoted entries land in.
#[derive(Clone, Copy, PartialEq, Eq, Structural, Debug)]
pub enum CacheState {
    CachingShard,
    CachingChunk,
}

/// The cost of one retrieval: `Free` when the value was already
/// resident in the chunk tier before the call, `Full` otherwise.
#[derive(Clone, Copy, PartialEq, Eq, Structural, Debug)]
pub enum RetrievalCost {
    Free,
    Full,
}

/// Where a hash currently resides.
pub enum CachePosition {
    Absent,
    InShard(Vec<u8>),
    InChunk(Vec<u8>),
}

/// The mathematical state of the cache: the mode, the two tiers as
/// key-value sequences (the shard tier in recency order, most recently
/// used first), and the shard tier's capacity.
#[verifier::ext_equal]
pub ghost struct CacheModel {
    pub mode: CacheState,
    pub chunk: Seq<(Seq<u8>, Seq<u8>)>,
    pub shard: Seq<(Seq<u8>, Seq<u8>)>,
    pub cap: nat,
}

/// Well-formedness of a cache state: distinct keys within each tier, no
/// key in both tiers at once, a respected capacity bound, and no cached
/// value at or above the size threshold.
pub open spec fn model_inv(m: CacheModel) -> bool {
    &&& tier_distinct(m.chunk)
    &&& tier_distinct(m.shard)
    &&& forall|k: Seq<u8>| !(tier_has(m.chunk, k) && tier_has(m.shard, k))
    &&& m.shard.len() <= m.cap
    &&& 1 <= m.cap
    &&& forall|j: int|
        0 <= j < m.chunk.len() ==> (#[trigger] m.chunk[j]).1.len()
            < TRIE_LIMIT_CACHED_VALUE_SIZE as int
    &&& forall|j: int|
        0 <= j < m.shard.len() ==> (#[trigger] m.shard[j]).1.len()
            < TRIE_LIMIT_CACHED_VALUE_SIZE as int
}

/// What `put` does to the cache state.
pub open spec fn model_put(m: CacheModel, k: Seq<u8>, v: Seq<u8>) -> CacheModel {
    if v.len() >= TRIE_LIMIT_CACHED_VALUE_SIZE as int {
        m
    } else if m.mode is CachingChunk {
        CacheModel {
            chunk: tier_remove(m.chunk, k).push((k, v)),
            shard: tier_remove(m.shard, k),
            ..m
        }
    } else if tier_has(m.chunk, k) {
        CacheModel { chunk: tier_remove(m.chunk, k).push((k, v)), ..m }
    } else {
        CacheModel { shard: lru_put_model(m.shard, m.cap, k, v), ..m }
    }
}

/// What `chargeable_get` does: the state after the call, the value
/// handed back, and the cost charged. A chunk-tier hit is free; a
/// shard-tier hit costs full price and, while the mode is
/// `CachingChunk`, promotes the entry into the chunk tier; a miss
/// costs full price.
pub open spec fn model_chargeable_get(m: CacheModel, k: Seq<u8>) -> (
    CacheModel,
    Option<Seq<u8>>,
    RetrievalCost,
) {
    if tier_has(m.chunk, k) {
        (m, Some(tier_get(m.chunk, k)), RetrievalCost::Free)
    } else if tier_has(m.shard, k) {
        let v = tier_get(m.shard, k);
        if m.mode is CachingChunk {
            (
                CacheModel {
                    shard: tier_remove(m.shard, k),
                    chunk: tier_remove(m.chunk, k).push((k, v)),
                    ..m
                },
                Some(v),
                RetrievalCost::Full,
            )
        } else {
            (CacheModel { shard: lru_touch(m.shard, k), ..m }, Some(v), RetrievalCost::Full)
        }
    } else {
        (m, None, RetrievalCost::Full)
    }
}

/// What `pop` does: the state after the call and the value taken out.
pub open spec fn model_pop(m: CacheModel, k: Seq<u8>) -> (CacheModel, Option<Seq<u8>>) {
    if tier_has(m.chunk, k) {
        (CacheModel { chunk: tier_remove(m.chunk, k), ..m }, Some(tier_get(m.chunk, k)))
    } else if tier_has(m.shard, k) {
        (CacheModel { shard: tier_remove(m.shard, k), ..m }, Some(tier_get(m.shard, k)))
    } else {
        (m, None)
    }
}

/// The shard tier after draining the given chunk entries into it, in
/// order, as ordinary inserts.
pub open spec fn drain_into(
    shard: Seq<(Seq<u8>, Seq<u8>)>,
    cap: nat,
    chunk: Seq<(Seq<u8>, Seq<u8>)>,
) -> Seq<(Seq<u8>, Seq<u8>)>
    decreases chunk.len(),
{
    if chunk.len() == 0 {
        shard
    } else {
        drain_into(lru_put_model(shard, cap, chunk[0].0, chunk[0].1), cap, chunk.drop_first())
    }
}

/// What `drain_chunk_cache` does to the cache state.
pub open spec fn model_drain(m: CacheModel) -> CacheModel {
    CacheModel {
        chunk: Seq::<(Seq<u8>, Seq<u8>)>::empty(),
        shard: drain_into(m.shard, m.cap, m.chunk),
        ..m
    }
}

/// What `flip_caching_chunk_state` does.
pub open spec fn model_flip(m: CacheModel) -> CacheModel {
    CacheModel {
        mode: if m.mode is CachingChunk {
            CacheState::CachingShard
        } else {
            CacheState::CachingChunk
        },
        ..m
    }
}

/// What `clear` does.
pub open spec fn model_clear(m: CacheModel) -> CacheModel {
    CacheModel {
        mode: CacheState::CachingShard,
        chunk: Seq::<(Seq<u8>, Seq<u8>)>::empty(),
        shard: Seq::<(Seq<u8>, Seq<u8>)>::empty(),
        cap: m.cap,
    }
}

/// What one batch element does: a raw record decoding to a live payload
/// is put; a record decoding to a deleted value, or an element with no
/// record at all, evicts the hash.
pub open spec fn model_apply_op(m: CacheModel, k: Seq<u8>, raw: Option<Seq<u8>>) -> CacheModel {
    match raw {
        Some(bytes) => match spec_payload(bytes) {
            Some(p) => model_put(m, k, p),
            None => model_pop(m, k).0,
        },
        None => model_pop(m, k).0,
    }
}

/// What `update_cache` does: the batch elements applied in order.
pub open spec fn model_apply_ops(m: CacheModel, ops: Seq<(Seq<u8>, Option<Seq<u8>>)>) -> CacheModel
    decreases ops.len(),
{
    if ops.len() == 0 {
        m
    } else {
        model_apply_ops(model_apply_op(m, ops[0].0, ops[0].1), ops.drop_first())
    }
}

/// The key-and-record view of a batch of store-level mutations.
pub open spec fn ops_view(ops: Seq<(CryptoHash, Option<Vec<u8>>)>) -> Seq<
    (Seq<u8>, Option<Seq<u8>>),
> {
    ops.map_values(|op: (CryptoHash, Option<Vec<u8>>)| (op.0@, opt_bytes(op.1)))
}

/// No hash is ever resident in both tiers of a well-formed cache.
pub proof fn lemma_tier_exclusive(m: CacheModel, k: Seq<u8>)
    requires
        model_inv(m),
    ensures
        !(tier_has(m.chunk, k) && tier_has(m.shard, k)),
{
}

/// What an insert leaves in the shard tier: the new binding in front;
/// a rebound key keeps everything else; a fresh key keeps everything
/// else unless the tier was full, in which case exactly the least
/// recently used entry leaves.
pub proof fn lemma_lru_put_model_effect(s: Seq<(Seq<u8>, Seq<u8>)>, cap: nat, k: Seq<u8>, v: Seq<u8>)
    requires
        tier_distinct(s),
        s.len() <= cap,
        1 <= cap,
    ensures
        tier_distinct(lru_put_model(s, cap, k, v)),
        lru_put_model(s, cap, k, v).len() <= cap,
        tier_has(lru_put_model(s, cap, k, v), k),
        tier_get(lru_put_model(s, cap, k, v), k) == v,
        forall|k2: Seq<u8>|
            k2 != k ==> (tier_has(lru_put_model(s, cap, k, v), k2) ==> tier_has(s, k2)),
        forall|k2: Seq<u8>|
            k2 != k && tier_has(lru_put_model(s, cap, k, v), k2) ==> tier_get(
                lru_put_model(s, cap, k, v),
                k2,
            ) == tier_get(s, k2),
        tier_has(s, k) ==> (forall|k2: Seq<u8>|
            tier_has(lru_put_model(s, cap, k, v), k2) == tier_has(s, k2)),
        (!tier_has(s, k) && s.len() < cap) ==> (forall|k2: Seq<u8>|
            tier_has(lru_put_model(s, cap, k, v), k2) == (k2 == k || tier_has(s, k2))),
        (!tier_has(s, k) && s.len() == cap) ==> (forall|k2: Seq<u8>|
            tier_has(lru_put_model(s, cap, k, v), k2) == (k2 == k || (tier_has(s, k2) && k2
                != s.last().0))),
        (forall|j: int| 0 <= j < s.len() ==> (#[trigger] s[j]).1.len() < TRIE_LIMIT_CACHED_VALUE_SIZE as int)
            && v.len() < TRIE_LIMIT_CACHED_VALUE_SIZE as int ==> (forall|j: int|
            0 <= j < lru_put_model(s, cap, k, v).len() ==> (#[trigger] lru_put_model(
                s,
                cap,
                k,
                v,
            )[j]).1.len() < TRIE_LIMIT_CACHED_VALUE_SIZE as int),
{
    let p = lru_put_model(s, cap, k, v);
    if tier_has(s, k) {
        lemma_remove_effect(s, k);
        lemma_front_effect(tier_remove(s, k), k, v);
        assert(p == seq![(k, v)] + tier_remove(s, k));
        assert forall|j: int|
            (forall|j2: int| 0 <= j2 < s.len() ==> (#[trigger] s[j2]).1.len()
                < TRIE_LIMIT_CACHED_VALUE_SIZE as int) && v.len() < TRIE_LIMIT_CACHED_VALUE_SIZE as int
                && 0 <= j < p.len() implies (#[trigger] p[j]).1.len()
            < TRIE_LIMIT_CACHED_VALUE_SIZE as int by {
            if j > 0 {
                let i = tier_at(s, k);
                let j0 = if j - 1 < i {
                    j - 1
                } else {
                    j
                };
                assert(p[j] == s[j0]);
            }
        }
    } else if s.len() == cap {
        lemma_drop_last_effect(s);
        lemma_front_effect(s.drop_last(), k, v);
        assert(p == seq![(k, v)] + s.drop_last());
        assert forall|j: int|
            (forall|j2: int| 0 <= j2 < s.len() ==> (#[trigger] s[j2]).1.len()
                < TRIE_LIMIT_CACHED_VALUE_SIZE as int) && v.len() < TRIE_LIMIT_CACHED_VALUE_SIZE as int
                && 0 <= j < p.len() implies (#[trigger] p[j]).1.len()
            < TRIE_LIMIT_CACHED_VALUE_SIZE as int by {
            if j > 0 {
                assert(p[j] == s[j - 1]);
            }
        }
    } else {
        lemma_front_effect(s, k, v);
        assert(p == seq![(k, v)] + s);
        assert forall|j: int|
            (forall|j2: int| 0 <= j2 < s.len() ==> (#[trigger] s[j2]).1.len()
                < TRIE_LIMIT_CACHED_VALUE_SIZE as int) && v.len() < TRIE_LIMIT_CACHED_VALUE_SIZE as int
                && 0 <= j < p.len() implies (#[trigger] p[j]).1.len()
            < TRIE_LIMIT_CACHED_VALUE_SIZE as int by {
            if j > 0 {
                assert(p[j] == s[j - 1]);
            }
        }
    }
}

/// Touching an entry reorders the shard tier without changing what it
/// holds.
pub proof fn lemma_lru_touch_effect(s: Seq<(Seq<u8>, Seq<u8>)>, k: Seq<u8>)
    requires
        tier_distinct(s),
        tier_has(s, k),
    ensures
        tier_distinct(lru_touch(s, k)),
        lru_touch(s, k).len() == s.len(),
        forall|k2: Seq<u8>| tier_has(lru_touch(s, k), k2) == tier_has(s, k2),
        forall|k2: Seq<u8>|
            tier_has(s, k2) ==> tier_get(lru_touch(s, k), k2) == tier_get(s, k2),
        forall|j: int|
            (forall|j2: int| 0 <= j2 < s.len() ==> (#[trigger] s[j2]).1.len()
                < TRIE_LIMIT_CACHED_VALUE_SIZE as int) && 0 <= j < lru_touch(s, k).len()
                ==> (#[trigger] lru_touch(s, k)[j]).1.len() < TRIE_LIMIT_CACHED_VALUE_SIZE as int,
        tier_remove(lru_touch(s, k), k) == tier_remove(s, k),
{
    let t = lru_touch(s, k);
    lemma_remove_effect(s, k);
    lemma_front_effect(tier_remove(s, k), k, tier_get(s, k));
    assert forall|k2: Seq<u8>| tier_has(t, k2) == tier_has(s, k2) by {
        if k2 != k {
            assert(tier_has(t, k2) == tier_has(tier_remove(s, k), k2));
        }
    }
    assert forall|j: int|
        (forall|j2: int| 0 <= j2 < s.len() ==> (#[trigger] s[j2]).1.len()
            < TRIE_LIMIT_CACHED_VALUE_SIZE as int) && 0 <= j < t.len() implies (#[trigger] t[j]).1.len()
        < TRIE_LIMIT_CACHED_VALUE_SIZE as int by {
        let i = tier_at(s, k);
        if j == 0 {
            assert(t[0].1 == tier_get(s, k));
            assert(s[i].1 == tier_get(s, k));
        } else {
            let j0 = if j - 1 < i {
                j - 1
            } else {
                j
            };
            assert(t[j] == s[j0]);
        }
    }
    lemma_at_unique(t, k, 0);
    assert(tier_remove(t, k) =~= tier_remove(s, k));
}

/// `put` preserves well-formedness.
pub proof fn lemma_put_preserves_inv(m: CacheModel, k: Seq<u8>, v: Seq<u8>)
    requires
        model_inv(m),
    ensures
        model_inv(model_put(m, k, v)),
{
    let p = model_put(m, k, v);
    if v.len() >= TRIE_LIMIT_CACHED_VALUE_SIZE as int {
    } else if m.mode is CachingChunk {
        lemma_remove_effect(m.chunk, k);
        lemma_remove_effect(m.shard, k);
        lemma_push_effect(tier_remove(m.chunk, k), k, v);
        assert forall|k2: Seq<u8>| !(tier_has(p.chunk, k2) && tier_has(p.shard, k2)) by {
            if k2 != k && tier_has(p.chunk, k2) {
                assert(tier_has(m.chunk, k2));
            }
        }
        assert forall|j: int| 0 <= j < p.chunk.len() implies (#[trigger] p.chunk[j]).1.len()
            < TRIE_LIMIT_CACHED_VALUE_SIZE as int by {
            if j < p.chunk.len() - 1 {
                if tier_has(m.chunk, k) {
                    let i = tier_at(m.chunk, k);
                    let j0 = if j < i {
                        j
                    } else {
                        j + 1
                    };
                    assert(p.chunk[j] == m.chunk[j0]);
                } else {
                    assert(p.chunk[j] == m.chunk[j]);
                }
            } else {
                assert(p.chunk[j].1 == v);
            }
        }
        assert forall|j: int| 0 <= j < p.shard.len() implies (#[trigger] p.shard[j]).1.len()
            < TRIE_LIMIT_CACHED_VALUE_SIZE as int by {
            if tier_has(m.shard, k) {
                let i = tier_at(m.shard, k);
                let j0 = if j < i {
                    j
                } else {
                    j + 1
                };
                assert(p.shard[j] == m.shard[j0]);
            } else {
                assert(p.shard[j] == m.shard[j]);
            }
        }
    } else if tier_has(m.chunk, k) {
        lemma_remove_effect(m.chunk, k);
        lemma_push_effect(tier_remove(m.chunk, k), k, v);
        assert forall|k2: Seq<u8>| !(tier_has(p.chunk, k2) && tier_has(p.shard, k2)) by {
            if k2 != k && tier_has(p.chunk, k2) {
                assert(tier_has(m.chunk, k2));
            }
        }
        assert forall|j: int| 0 <= j < p.chunk.len() implies (#[trigger] p.chunk[j]).1.len()
            < TRIE_LIMIT_CACHED_VALUE_SIZE as int by {
            if j < p.chunk.len() - 1 {
                let i = tier_at(m.chunk, k);
                let j0 = if j < i {
                    j
                } else {
                    j + 1
                };
                assert(p.chunk[j] == m.chunk[j0]);
            } else {
                assert(p.chunk[j].1 == v);
            }
        }
    } else {
        lemma_lru_put_model_effect(m.shard, m.cap, k, v);
        assert forall|k2: Seq<u8>| !(tier_has(p.chunk, k2) && tier_has(p.shard, k2)) by {
            if tier_has(p.shard, k2) && k2 != k {
                assert(tier_has(m.shard, k2));
            }
        }
    }
}

/// `chargeable_get` preserves well-formedness.
pub proof fn lemma_chargeable_get_preserves_inv(m: CacheModel, k: Seq<u8>)
    requires
        model_inv(m),
    ensures
        model_inv(model_chargeable_get(m, k).0),
{
    let p = model_chargeable_get(m, k).0;
    if tier_has(m.chunk, k) {
    } else if tier_has(m.shard, k) {
        let v = tier_get(m.shard, k);
        if m.mode is CachingChunk {
            lemma_remove_effect(m.shard, k);
            lemma_remove_effect(m.chunk, k);
            lemma_push_effect(m.chunk, k, v);
            assert(tier_remove(m.chunk, k) == m.chunk);
            assert forall|k2: Seq<u8>| !(tier_has(p.chunk, k2) && tier_has(p.shard, k2)) by {
                if k2 != k && tier_has(p.chunk, k2) {
                    assert(tier_has(m.chunk, k2));
                }
            }
            assert forall|j: int| 0 <= j < p.chunk.len() implies (#[trigger] p.chunk[j]).1.len()
                < TRIE_LIMIT_CACHED_VALUE_SIZE as int by {
                if j < p.chunk.len() - 1 {
                    assert(p.chunk[j] == m.chunk[j]);
                } else {
                    let i = tier_at(m.shard, k);
                    assert(p.chunk[j].1 == v);
                    assert(m.shard[i].1 == v);
                }
            }
            assert forall|j: int| 0 <= j < p.shard.len() implies (#[trigger] p.shard[j]).1.len()
                < TRIE_LIMIT_CACHED_VALUE_SIZE as int by {
                let i = tier_at(m.shard, k);
                let j0 = if j < i {
                    j
                } else {
                    j + 1
                };
                assert(p.shard[j] == m.shard[j0]);
            }
        } else {
            lemma_lru_touch_effect(m.shard, k);
        }
    }
}

/// `pop` preserves well-formedness.
pub proof fn lemma_pop_preserves_inv(m: CacheModel, k: Seq<u8>)
    requires
        model_inv(m),
    ensures
        model_inv(model_pop(m, k).0),
{
    let p = model_pop(m, k).0;
    if tier_has(m.chunk, k) {
        lemma_remove_effect(m.chunk, k);
        assert forall|k2: Seq<u8>| !(tier_has(p.chunk, k2) && tier_has(p.shard, k2)) by {
            if k2 != k && tier_has(p.chunk, k2) {
                assert(tier_has(m.chunk, k2));
            }
        }
        assert forall|j: int| 0 <= j < p.chunk.len() implies (#[trigger] p.chunk[j]).1.len()
            < TRIE_LIMIT_CACHED_VALUE_SIZE as int by {
            let i = tier_at(m.chunk, k);
            let j0 = if j < i {
                j
            } else {
                j + 1
            };
            assert(p.chunk[j] == m.chunk[j0]);
        }
    } else if tier_has(m.shard, k) {
        lemma_remove_effect(m.shard, k);
        assert forall|k2: Seq<u8>| !(tier_has(p.chunk, k2) && tier_has(p.shard, k2)) by {
            if k2 != k && tier_has(p.shard, k2) {
                assert(tier_has(m.shard, k2));
            }
        }
        assert forall|j: int| 0 <= j < p.shard.len() implies (#[trigger] p.shard[j]).1.len()
            < TRIE_LIMIT_CACHED_VALUE_SIZE as int by {
            let i = tier_at(m.shard, k);
            let j0 = if j < i {
                j
            } else {
                j + 1
            };
            assert(p.shard[j] == m.shard[j0]);
        }
    }
}

/// A payload at or above the size threshold is never cached: putting
/// it leaves the cache unchanged, and retrieval of a hash not already
/// resident still misses at full cost after such a put.
pub proof fn lemma_large_value_never_cached(m: CacheModel, k: Seq<u8>, v: Seq<u8>)
    requires
        model_inv(m),
        v.len() >= TRIE_LIMIT_CACHED_VALUE_SIZE as int,
        !tier_has(m.chunk, k),
        !tier_has(m.shard, k),
    ensures
        model_put(m, k, v) == m,
        model_chargeable_get(model_put(m, k, v), k) == (m, None::<Seq<u8>>, RetrievalCost::Full),
{
}

/// Retrieval immediately after a put while the mode is `CachingChunk`
/// is free. The same put while the mode is `CachingShard`, followed by
/// a flip to `CachingChunk`, costs full price on the first retrieval
/// (which promotes the entry) and is free on the next. The hash must
/// not already sit in the chunk tier: a chunk-resident hash is rebound
/// there by any put and every retrieval of it is free.
pub proof fn lemma_put_then_get_cost(m: CacheModel, k: Seq<u8>, v: Seq<u8>)
    requires
        model_inv(m),
        v.len() < TRIE_LIMIT_CACHED_VALUE_SIZE as int,
        !tier_has(m.chunk, k),
    ensures
        m.mode is CachingChunk ==> ({
            let g = model_chargeable_get(model_put(m, k, v), k);
            g.1 == Some(v) && g.2 == RetrievalCost::Free
        }),
        m.mode is CachingShard ==> ({
            let m1 = model_flip(model_put(m, k, v));
            let g1 = model_chargeable_get(m1, k);
            let g2 = model_chargeable_get(g1.0, k);
            g1.1 == Some(v) && g1.2 == RetrievalCost::Full && g2.1 == Some(v) && g2.2
                == RetrievalCost::Free
        }),
{
    if m.mode is CachingChunk {
        lemma_remove_effect(m.chunk, k);
        lemma_push_effect(m.chunk, k, v);
        assert(tier_remove(m.chunk, k) == m.chunk);
    } else {
        let p = model_put(m, k, v);
        lemma_lru_put_model_effect(m.shard, m.cap, k, v);
        assert(tier_has(p.shard, k) && tier_get(p.shard, k) == v);
        assert(!tier_has(p.chunk, k));
        let m1 = model_flip(p);
        let g1 = model_chargeable_get(m1, k);
        lemma_remove_effect(m1.chunk, k);
        lemma_push_effect(m1.chunk, k, v);
        assert(tier_remove(m1.chunk, k) == m1.chunk);
        assert(tier_has(g1.0.chunk, k) && tier_get(g1.0.chunk, k) == v);
    }
}

/// Putting a fresh small payload into a full shard tier, with no
/// chunk-tier involvement, evicts exactly the least recently accessed
/// entry (the last of the recency order, since every get and put moves
/// its entry to the front): that entry becomes absent, the new one and
/// every other old one stay resolvable.
pub proof fn lemma_eviction(m: CacheModel, k: Seq<u8>, v: Seq<u8>)
    requires
        model_inv(m),
        m.mode is CachingShard,
        v.len() < TRIE_LIMIT_CACHED_VALUE_SIZE as int,
        !tier_has(m.chunk, k),
        !tier_has(m.shard, k),
        m.shard.len() == m.cap,
    ensures
        ({
            let p = model_put(m, k, v);
            let victim = m.shard.last().0;
            &&& model_chargeable_get(p, victim).1 is None
            &&& tier_has(p.shard, k)
            &&& forall|k2: Seq<u8>|
                tier_has(m.shard, k2) && k2 != victim ==> tier_has(p.shard, k2)
        }),
{
    let p = model_put(m, k, v);
    let victim = m.shard.last().0;
    assert(tier_has(m.shard, victim)) by {
        assert(m.shard[m.shard.len() - 1].0 == victim);
    }
    lemma_lru_put_model_effect(m.shard, m.cap, k, v);
    assert(!tier_has(p.chunk, victim));
    assert(!tier_has(p.shard, victim));
}

/// Draining moves every chunk-tier entry into the shard tier with its
/// value intact and empties the chunk tier, provided both tiers
/// together fit within the shard tier's capacity, so that the drain
/// itself evicts nothing. (With more resident entries than capacity,
/// the entries drained earliest can themselves be evicted again.)
pub proof fn lemma_drain_resolvable(m: CacheModel, k: Seq<u8>)
    requires
        model_inv(m),
        tier_has(m.chunk, k),
        m.chunk.len() + m.shard.len() <= m.cap,
    ensures
        model_drain(m).chunk == Seq::<(Seq<u8>, Seq<u8>)>::empty(),
        tier_has(model_drain(m).shard, k),
        tier_get(model_drain(m).shard, k) == tier_get(m.chunk, k),
{
    lemma_drain_into_no_evict(m.shard, m.cap, m.chunk);
}

/// A drain whose two tiers fit within the capacity keeps every entry of
/// both tiers, values intact.
pub proof fn lemma_drain_into_no_evict(
    shard: Seq<(Seq<u8>, Seq<u8>)>,
    cap: nat,
    chunk: Seq<(Seq<u8>, Seq<u8>)>,
)
    requires
        tier_distinct(shard),
        tier_distinct(chunk),
        forall|k: Seq<u8>| !(tier_has(chunk, k) && tier_has(shard, k)),
        shard.len() + chunk.len() <= cap,
    ensures
        tier_distinct(drain_into(shard, cap, chunk)),
        drain_into(shard, cap, chunk).len() == shard.len() + chunk.len(),
        forall|k: Seq<u8>|
            tier_has(chunk, k) ==> (tier_has(drain_into(shard, cap, chunk), k) && tier_get(
                drain_into(shard, cap, chunk),
                k,
            ) == tier_get(chunk, k)),
        forall|k: Seq<u8>|
            tier_has(shard, k) ==> (tier_has(drain_into(shard, cap, chunk), k) && tier_get(
                drain_into(shard, cap, chunk),
                k,
            ) == tier_get(shard, k)),
    decreases chunk.len(),
{
    if chunk.len() == 0 {
    } else {
        let e = chunk[0];
        let rest = chunk.drop_first();
        assert(tier_has(chunk, e.0));
        lemma_at_unique(chunk, e.0, 0);
        assert(!tier_has(shard, e.0));
        assert(shard.len() < cap);
        let shard1 = lru_put_model(shard, cap, e.0, e.1);
        lemma_front_effect(shard, e.0, e.1);
        assert(shard1 == seq![(e.0, e.1)] + shard);
        assert(tier_distinct(rest)) by {
            assert forall|a: int, b: int| 0 <= a < b < rest.len() implies rest[a].0
                != rest[b].0 by {
                assert(rest[a] == chunk[a + 1] && rest[b] == chunk[b + 1]);
            }
        }
        assert forall|k2: Seq<u8>| tier_has(rest, k2) implies tier_has(chunk, k2) && k2 != e.0 by {
            let j = tier_at(rest, k2);
            assert(0 <= j < rest.len() && rest[j].0 == k2);
            assert(chunk[j + 1].0 == k2);
            assert(tier_has(chunk, k2));
            lemma_at_unique(chunk, k2, j + 1);
        }
        assert forall|k2: Seq<u8>| !(tier_has(rest, k2) && tier_has(shard1, k2)) by {
            if tier_has(rest, k2) {
                assert(tier_has(chunk, k2) && k2 != e.0);
                assert(!tier_has(shard, k2));
            }
        }
        lemma_drain_into_no_evict(shard1, cap, rest);
        assert(chunk.drop_first() == rest);
        assert(drain_into(shard, cap, chunk) == drain_into(shard1, cap, rest));
        assert forall|k2: Seq<u8>| tier_has(chunk, k2) implies (tier_has(
            drain_into(shard, cap, chunk),
            k2,
        ) && tier_get(drain_into(shard, cap, chunk), k2) == tier_get(chunk, k2)) by {
            let j = tier_at(chunk, k2);
            assert(0 <= j < chunk.len() && chunk[j].0 == k2);
            if j == 0 {
                assert(k2 == e.0);
                assert(tier_has(shard1, e.0) && tier_get(shard1, e.0) == e.1);
                assert(tier_get(chunk, e.0) == e.1);
            } else {
                assert(rest[j - 1].0 == k2);
                assert(tier_has(rest, k2));
                lemma_at_unique(rest, k2, j - 1);
                assert(tier_get(rest, k2) == chunk[j].1);
                assert(tier_get(chunk, k2) == chunk[j].1);
            }
        }
    }
}

/// Appending one entry to the drained prefix inserts it last.
pub proof fn lemma_drain_snoc(
    s: Seq<(Seq<u8>, Seq<u8>)>,
    cap: nat,
    c: Seq<(Seq<u8>, Seq<u8>)>,
    e: (Seq<u8>, Seq<u8>),
)
    ensures
        drain_into(s, cap, c.push(e)) == lru_put_model(drain_into(s, cap, c), cap, e.0, e.1),
    decreases c.len(),
{
    let cpe = c.push(e);
    if c.len() == 0 {
        assert(cpe[0] == e);
        assert(cpe.drop_first() =~= Seq::<(Seq<u8>, Seq<u8>)>::empty());
        assert(drain_into(s, cap, cpe) == drain_into(
            lru_put_model(s, cap, e.0, e.1),
            cap,
            Seq::<(Seq<u8>, Seq<u8>)>::empty(),
        ));
        assert(drain_into(lru_put_model(s, cap, e.0, e.1), cap, Seq::<(Seq<u8>, Seq<u8>)>::empty())
            == lru_put_model(s, cap, e.0, e.1));
        assert(drain_into(s, cap, c) == s);
    } else {
        assert(cpe[0] == c[0]);
        assert(cpe.drop_first() =~= c.drop_first().push(e));
        lemma_drain_snoc(lru_put_model(s, cap, c[0].0, c[0].1), cap, c.drop_first(), e);
        assert(drain_into(s, cap, cpe) == drain_into(
            lru_put_model(s, cap, c[0].0, c[0].1),
            cap,
            c.drop_first().push(e),
        ));
        assert(drain_into(s, cap, c) == drain_into(
            lru_put_model(s, cap, c[0].0, c[0].1),
            cap,
            c.drop_first(),
        ));
    }
}

/// Appending one batch element to an applied prefix applies it last.
pub proof fn lemma_apply_snoc(
    m: CacheModel,
    ops: Seq<(Seq<u8>, Option<Seq<u8>>)>,
    e: (Seq<u8>, Option<Seq<u8>>),
)
    ensures
        model_apply_ops(m, ops.push(e)) == model_apply_op(model_apply_ops(m, ops), e.0, e.1),
    decreases ops.len(),
{
    let ope = ops.push(e);
    if ops.len() == 0 {
        assert(ope[0] == e);
        assert(ope.drop_first() =~= Seq::<(Seq<u8>, Option<Seq<u8>>)>::empty());
        assert(model_apply_ops(m, ope) == model_apply_ops(
            model_apply_op(m, e.0, e.1),
            Seq::<(Seq<u8>, Option<Seq<u8>>)>::empty(),
        ));
        assert(model_apply_ops(m, ops) == m);
    } else {
        assert(ope[0] == ops[0]);
        assert(ope.drop_first() =~= ops.drop_first().push(e));
        lemma_apply_snoc(model_apply_op(m, ops[0].0, ops[0].1), ops.drop_first(), e);
        assert(model_apply_ops(m, ope) == model_apply_ops(
            model_apply_op(m, ops[0].0, ops[0].1),
            ops.drop_first().push(e),
        ));
        assert(model_apply_ops(m, ops) == model_apply_ops(
            model_apply_op(m, ops[0].0, ops[0].1),
            ops.drop_first(),
        ));
    }
}

/// The two tiers and the mode flag, under exclusive access of the
/// caller. All multi-step updates (check-then-promote, drain) happen
/// inside one method call, so no caller ever observes a partially
/// updated tier pair.
pub struct TrieCache {
    cache_state: CacheState,
    shard_cache: lru::LruCache<Vec<u8>, Vec<u8>>,
    chunk_cache: Vec<(CryptoHash, Vec<u8>)>,
}

impl View for TrieCache {
    type V = CacheModel;

    closed spec fn view(&self) -> CacheModel {
        CacheModel {
            mode: self.cache_state,
            chunk: kv_view(self.chunk_cache@),
            shard: lru_entries(self.shard_cache),
            cap: lru_capacity(self.shard_cache),
        }
    }
}

impl TrieCache {
    /// Where `hash` currently resides; the chunk tier is checked first.
    /// A shard-tier hit counts as a use of the entry for
    /// least-recently-used ordering.
    pub fn get_cache_position(&mut self, hash: &CryptoHash) -> (r: CachePosition)
        requires
            model_inv(old(self)@),
        ensures
            model_inv(final(self)@),
            final(self)@.mode == old(self)@.mode,
            final(self)@.cap == old(self)@.cap,
            final(self)@.chunk == old(self)@.chunk,
            match r {
                CachePosition::InChunk(v) => tier_has(old(self)@.chunk, hash@) && v@ == tier_get(
                    old(self)@.chunk,
                    hash@,
                ) && final(self)@.shard == old(self)@.shard,
                CachePosition::InShard(v) => !tier_has(old(self)@.chunk, hash@) && tier_has(
                    old(self)@.shard,
                    hash@,
                ) && v@ == tier_get(old(self)@.shard, hash@) && final(self)@.shard == lru_touch(
                    old(self)@.shard,
                    hash@,
                ),
                CachePosition::Absent => !tier_has(old(self)@.chunk, hash@) && !tier_has(
                    old(self)@.shard,
                    hash@,
                ) && final(self)@.shard == old(self)@.shard,
            },
    {
        let ghost m0 = self@;
        match kv_get(&self.chunk_cache, hash) {
            Some(v) => CachePosition::InChunk(v),
            None => {
                let got = lru_get(&mut self.shard_cache, hash);
                proof {
                    if tier_has(m0.shard, hash@) {
                        lemma_lru_touch_effect(m0.shard, hash@);
                    }
                }
                match got {
                    Some(v) => CachePosition::InShard(v),
                    None => CachePosition::Absent,
                }
            },
        }
    }

    /// Resolve `hash` from the tiers, reporting the retrieval cost: a
    /// chunk-tier hit is `Free`; anything else costs `Full`, including a
    /// shard-tier hit, which is promoted into the chunk tier while the
    /// mode is `CachingChunk`.
    pub fn chargeable_get(&mut self, hash: &CryptoHash) -> (r: (Option<Vec<u8>>, RetrievalCost))
        requires
            model_inv(old(self)@),
        ensures
            model_inv(final(self)@),
            final(self)@ == model_chargeable_get(old(self)@, hash@).0,
            opt_bytes(r.0) == model_chargeable_get(old(self)@, hash@).1,
            r.1 == model_chargeable_get(old(self)@, hash@).2,
    {
        let ghost m0 = self@;
        let pos = self.get_cache_position(hash);
        proof {
            lemma_chargeable_get_preserves_inv(m0, hash@);
        }
        match pos {
            CachePosition::Absent => {
                proof {
                    assert(self@ =~= model_chargeable_get(m0, hash@).0);
                }
                (None, RetrievalCost::Full)
            },
            CachePosition::InChunk(v) => {
                proof {
                    assert(self@ =~= model_chargeable_get(m0, hash@).0);
                }
                (Some(v), RetrievalCost::Free)
            },
            CachePosition::InShard(v) => {
                match self.cache_state {
                    CacheState::CachingChunk => {
                        proof {
                            lemma_lru_touch_effect(m0.shard, hash@);
                        }
                        let popped = lru_pop(&mut self.shard_cache, hash);
                        match popped {
                            Some(pv) => {
                                kv_insert(&mut self.chunk_cache, hash.clone(), pv);
                                proof {
                                    assert(self@ =~= model_chargeable_get(m0, hash@).0);
                                }
                            },
                            None => {
                                proof {
                                    assert(false);
                                }
                            },
                        }
                    },
                    CacheState::CachingShard => {
                        proof {
                            assert(self@ =~= model_chargeable_get(m0, hash@).0);
                        }
                    },
                }
                (Some(v), RetrievalCost::Full)
            },
        }
    }

    /// Cache `value` under `hash`. A value at or above the size
    /// threshold is never stored. While the mode is `CachingChunk` the
    /// entry lands in the chunk tier, displacing any shard-tier entry;
    /// otherwise an entry already in the chunk tier is rebound there,
    /// and anything else goes to the shard tier as an ordinary insert,
    /// which counts as a use for eviction order and may evict the least
    /// recently used entry.
    pub fn put(&mut self, hash: CryptoHash, value: Vec<u8>)
        requires
            model_inv(old(self)@),
        ensures
            model_inv(final(self)@),
            final(self)@ == model_put(old(self)@, hash@, value@),
    {
        let ghost m0 = self@;
        let ghost hh = hash@;
        let ghost vv = value@;
        proof {
            lemma_put_preserves_inv(m0, hh, vv);
        }
        if value.len() >= TRIE_LIMIT_CACHED_VALUE_SIZE {
            return ;
        }
        match self.cache_state {
            CacheState::CachingChunk => {
                let _ = lru_pop(&mut self.shard_cache, &hash);
                kv_insert(&mut self.chunk_cache, hash, value);
                proof {
                    assert(self@ =~= model_put(m0, hh, vv));
                }
            },
            CacheState::CachingShard => {
                match kv_find(&self.chunk_cache, &hash) {
                    Some(_) => {
                        kv_insert(&mut self.chunk_cache, hash, value);
                        proof {
                            assert(self@ =~= model_put(m0, hh, vv));
                        }
                    },
                    None => {
                        let _ = lru_put(&mut self.shard_cache, &hash, value);
                        proof {
                            assert(self@ =~= model_put(m0, hh, vv));
                        }
                    },
                }
            },
        }
    }

    /// Evict `hash`, handing its value back: out of the chunk tier when
    /// resident there, else out of the shard tier.
    pub fn pop(&mut self, hash: &CryptoHash) -> (r: Option<Vec<u8>>)
        requires
            model_inv(old(self)@),
        ensures
            model_inv(final(self)@),
            final(self)@ == model_pop(old(self)@, hash@).0,
            opt_bytes(r) == model_pop(old(self)@, hash@).1,
    {
        let ghost m0 = self@;
        proof {
            lemma_pop_preserves_inv(m0, hash@);
        }
        let r = match kv_remove(&mut self.chunk_cache, hash) {
            Some(v) => Some(v),
            None => lru_pop(&mut self.shard_cache, hash),
        };
        proof {
            assert(self@ =~= model_pop(m0, hash@).0);
        }
        r
    }

    /// Move every chunk-tier entry into the shard tier as an ordinary
    /// insert and empty the chunk tier, so the entries pinned during the
    /// previous unit of work rejoin least-recently-used management.
    pub fn drain_chunk_cache(&mut self)
        requires
            model_inv(old(self)@),
        ensures
            model_inv(final(self)@),
            final(self)@ == model_drain(old(self)@),
    {
        let ghost m0 = self@;
        let n = self.chunk_cache.len();
        let mut i: usize = 0;
        while i < n
            invariant
                model_inv(m0),
                n == self.chunk_cache@.len(),
                0 <= i <= n,
                self.cache_state == m0.mode,
                kv_view(self.chunk_cache@) == m0.chunk,
                lru_capacity(self.shard_cache) == m0.cap,
                lru_entries(self.shard_cache) == drain_into(
                    m0.shard,
                    m0.cap,
                    m0.chunk.subrange(0, i as int),
                ),
                tier_distinct(lru_entries(self.shard_cache)),
                lru_entries(self.shard_cache).len() <= m0.cap,
                forall|j: int|
                    0 <= j < lru_entries(self.shard_cache).len() ==> (#[trigger] lru_entries(
                        self.shard_cache,
                    )[j]).1.len() < TRIE_LIMIT_CACHED_VALUE_SIZE as int,
            decreases n - i,
        {
            let ghost pre = lru_entries(self.shard_cache);
            let h = self.chunk_cache[i].0.clone();
            let v = crate::kvlist::clone_bytes(&self.chunk_cache[i].1);
            proof {
                assert(m0.chunk[i as int] == (h@, v@));
                lemma_lru_put_model_effect(pre, m0.cap, h@, v@);
            }
            let _ = lru_put(&mut self.shard_cache, &h, v);
            proof {
                lemma_drain_snoc(m0.shard, m0.cap, m0.chunk.subrange(0, i as int), (h@, v@));
                assert(m0.chunk.subrange(0, i as int).push((h@, v@)) =~= m0.chunk.subrange(
                    0,
                    i + 1 as int,
                ));
            }
            i = i + 1;
        }
        self.chunk_cache.clear();
        proof {
            assert(m0.chunk.subrange(0, n as int) =~= m0.chunk);
            assert(kv_view(self.chunk_cache@) =~= Seq::<(Seq<u8>, Seq<u8>)>::empty());
            assert(self@ =~= model_drain(m0));
        }
    }

    /// Reset the mode to `CachingShard`, leaving both tiers as they are.
    pub fn set_shard_caching(&mut self)
        ensures
            final(self)@ == (CacheModel { mode: CacheState::CachingShard, ..old(self)@ }),
            model_inv(old(self)@) ==> model_inv(final(self)@),
    {
        self.cache_state = CacheState::CachingShard;
        proof {
            assert(self@ =~= (CacheModel { mode: CacheState::CachingShard, ..old(self)@ }));
        }
    }
}

/// The cache as handed to the storage layer: one instance per shard,
/// exclusively owned by it, created once per shard context.
pub struct SyncTrieCache(pub TrieCache);

impl View for SyncTrieCache {
    type V = CacheModel;

    open spec fn view(&self) -> CacheModel {
        self.0@
    }
}

impl SyncTrieCache {
    /// A fresh cache: both tiers empty, mode `CachingShard`, and the
    /// given shard-tier capacity (at least one entry).
    pub fn new(capacity: usize) -> (r: SyncTrieCache)
        requires
            1 <= capacity,
        ensures
            model_inv(r@),
            r@.mode == CacheState::CachingShard,
            r@.chunk == Seq::<(Seq<u8>, Seq<u8>)>::empty(),
            r@.shard == Seq::<(Seq<u8>, Seq<u8>)>::empty(),
            r@.cap == capacity as nat,
    {
        let c = SyncTrieCache(
            TrieCache {
                cache_state: CacheState::CachingShard,
                shard_cache: lru_new(capacity),
                chunk_cache: Vec::new(),
            },
        );
        proof {
            assert(c@.chunk =~= Seq::<(Seq<u8>, Seq<u8>)>::empty());
        }
        c
    }

    /// Empty both tiers and reset the mode to `CachingShard`.
    pub fn clear(&mut self)
        requires
            model_inv(old(self)@),
        ensures
            final(self)@ == model_clear(old(self)@),
            model_inv(final(self)@),
    {
        self.0.cache_state = CacheState::CachingShard;
        lru_clear(&mut self.0.shard_cache);
        self.0.chunk_cache.clear();
        proof {
            assert(self@.chunk =~= Seq::<(Seq<u8>, Seq<u8>)>::empty());
            assert(self@ =~= model_clear(old(self)@));
        }
    }

    /// Toggle the mode between `CachingShard` and `CachingChunk`.
    pub fn flip_caching_chunk_state(&mut self)
        ensures
            final(self)@ == model_flip(old(self)@),
            model_inv(old(self)@) ==> model_inv(final(self)@),
    {
        self.0.cache_state = match self.0.cache_state {
            CacheState::CachingShard => CacheState::CachingChunk,
            CacheState::CachingChunk => CacheState::CachingShard,
        };
        proof {
            assert(self@ =~= model_flip(old(self)@));
        }
    }

    /// Apply a batch of store-level mutations so the cache stays
    /// consistent with what was just written: an element whose record
    /// decodes to a live payload is put, any other element evicts its
    /// hash.
    pub fn update_cache(&mut self, ops: Vec<(CryptoHash, Option<Vec<u8>>)>)
        requires
            model_inv(old(self)@),
        ensures
            model_inv(final(self)@),
            final(self)@ == model_apply_ops(old(self)@, ops_view(ops@)),
    {
        let ghost m0 = self@;
        let n = ops.len();
        let mut i: usize = 0;
        while i < n
            invariant
                n == ops@.len(),
                0 <= i <= n,
                model_inv(self@),
                self@ == model_apply_ops(m0, ops_view(ops@).subrange(0, i as int)),
            decreases n - i,
        {
            let ghost pre = self@;
            let op = &ops[i];
            proof {
                assert(ops_view(ops@)[i as int] == (op.0@, opt_bytes(op.1)));
            }
            match &op.1 {
                Some(raw) => {
                    let decoded = decode_value_with_rc(raw.as_slice());
                    match decoded.0 {
                        Some(val) => {
                            self.0.put(op.0.clone(), val);
                        },
                        None => {
                            let _ = self.0.pop(&op.0);
                        },
                    }
                },
                None => {
                    let _ = self.0.pop(&op.0);
                },
            }
            proof {
                assert(self@ == model_apply_op(pre, op.0@, opt_bytes(op.1)));
                lemma_apply_snoc(m0, ops_view(ops@).subrange(0, i as int), (op.0@, opt_bytes(op.1)));
                assert(ops_view(ops@).subrange(0, i as int).push((op.0@, opt_bytes(op.1)))
                    =~= ops_view(ops@).subrange(0, i + 1 as int));
            }
            i = i + 1;
        }
        proof {
            assert(ops_view(ops@).subrange(0, n as int) =~= ops_view(ops@));
        }
    }
}

} // verus!
