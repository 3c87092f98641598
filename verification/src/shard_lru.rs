//! The boundary to the `lru` crate, which holds the shard tier.
//!
//! The shard tier is a capacity-bounded cache with least-recently-used
//! eviction. Its contents are named as a sequence of entries in
//! recency order, the most recently used first; the spec functions here
//! say how each operation rearranges that sequence, exactly as the
//! crate's source shows.

use vstd::prelude::*;
use crate::hash::CryptoHash;
use crate::kvlist::{tier_get, tier_has, tier_remove};

verus! {

#[verifier::external_type_specification]
#[verifier::external_body]
#[verifier::reject_recursive_types(K)]
#[verifier::reject_recursive_types(V)]
#[verifier::reject_recursive_types(S)]
pub struct ExLruCache<K, V, S>(lru::LruCache<K, V, S>);

/// The entries the cache holds, keyed by hash bytes, in recency order:
/// the most recently used entry first.
pub uninterp spec fn lru_entries(c: lru::LruCache<Vec<u8>, Vec<u8>>) -> Seq<(Seq<u8>, Seq<u8>)>;

/// The capacity the cache was created with.
pub uninterp spec fn lru_capacity(c: lru::LruCache<Vec<u8>, Vec<u8>>) -> nat;

/// An entry moved to the most-recent position, its value unchanged.
pub open spec fn lru_touch(s: Seq<(Seq<u8>, Seq<u8>)>, k: Seq<u8>) -> Seq<(Seq<u8>, Seq<u8>)> {
    seq![(k, tier_get(s, k))] + tier_remove(s, k)
}

/// What an insert does: a present key is rebound and moved to the
/// most-recent position; a fresh key lands in front, and when the cache
/// is full the least recently used entry leaves to make room.
pub open spec fn lru_put_model(
    s: Seq<(Seq<u8>, Seq<u8>)>,
    cap: nat,
    k: Seq<u8>,
    v: Seq<u8>,
) -> Seq<(Seq<u8>, Seq<u8>)> {
    if tier_has(s, k) {
        seq![(k, v)] + tier_remove(s, k)
    } else if cap == 0 {
        s
    } else if s.len() == cap {
        seq![(k, v)] + s.drop_last()
    } else {
        seq![(k, v)] + s
    }
}

/// Relies on lru::LruCache::new: an empty cache that holds at most
/// `cap` entries.
#[verifier::external_body]
pub(crate) fn lru_new(cap: usize) -> (r: lru::LruCache<Vec<u8>, Vec<u8>>)
    requires
        1 <= cap,
    ensures
        lru_entries(r) == Seq::<(Seq<u8>, Seq<u8>)>::empty(),
        lru_capacity(r) == cap,
{
    lru::LruCache::new(cap)
}

/// Relies on lru::LruCache::get: hands out a copy of the value under
/// the key and moves its entry to the most-recent position; an absent
/// key leaves the cache unchanged.
#[verifier::external_body]
pub(crate) fn lru_get(c: &mut lru::LruCache<Vec<u8>, Vec<u8>>, hash: &CryptoHash) -> (r: Option<
    Vec<u8>,
>)
    ensures
        lru_capacity(*final(c)) == lru_capacity(*old(c)),
        tier_has(lru_entries(*old(c)), hash@) ==> (r matches Some(v) && v@ == tier_get(
            lru_entries(*old(c)),
            hash@,
        ) && lru_entries(*final(c)) == lru_touch(lru_entries(*old(c)), hash@)),
        !tier_has(lru_entries(*old(c)), hash@) ==> (r is None && lru_entries(*final(c))
            == lru_entries(*old(c))),
{
    c.get(&hash.0).cloned()
}

/// Relies on lru::LruCache::put: binds the key to the value as the
/// most-recent entry, evicting the least recently used entry when a
/// fresh key arrives with the cache full; returns the value the key
/// held before, if any.
#[verifier::external_body]
pub(crate) fn lru_put(
    c: &mut lru::LruCache<Vec<u8>, Vec<u8>>,
    hash: &CryptoHash,
    value: Vec<u8>,
) -> (r: Option<Vec<u8>>)
    ensures
        lru_capacity(*final(c)) == lru_capacity(*old(c)),
        lru_entries(*final(c)) == lru_put_model(
            lru_entries(*old(c)),
            lru_capacity(*old(c)),
            hash@,
            value@,
        ),
        tier_has(lru_entries(*old(c)), hash@) ==> (r matches Some(v) && v@ == tier_get(
            lru_entries(*old(c)),
            hash@,
        )),
        !tier_has(lru_entries(*old(c)), hash@) ==> r is None,
{
    c.put(hash.0.clone(), value)
}

/// Relies on lru::LruCache::pop: takes the key's entry out and hands
/// its value back, leaving every other entry in place; an absent key
/// leaves the cache unchanged.
#[verifier::external_body]
pub(crate) fn lru_pop(c: &mut lru::LruCache<Vec<u8>, Vec<u8>>, hash: &CryptoHash) -> (r: Option<
    Vec<u8>,
>)
    ensures
        lru_capacity(*final(c)) == lru_capacity(*old(c)),
        lru_entries(*final(c)) == tier_remove(lru_entries(*old(c)), hash@),
        tier_has(lru_entries(*old(c)), hash@) ==> (r matches Some(v) && v@ == tier_get(
            lru_entries(*old(c)),
            hash@,
        )),
        !tier_has(lru_entries(*old(c)), hash@) ==> r is None,
{
    c.pop(&hash.0)
}

/// Relies on lru::LruCache::clear: pops every entry, leaving the
/// capacity as it was.
#[verifier::external_body]
pub(crate) fn lru_clear(c: &mut lru::LruCache<Vec<u8>, Vec<u8>>)
    ensures
        lru_capacity(*final(c)) == lru_capacity(*old(c)),
        lru_entries(*final(c)) == Seq::<(Seq<u8>, Seq<u8>)>::empty(),
{
    c.clear()
}

} // verus!
