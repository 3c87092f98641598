use trie_storage::cache::{CachePosition, RetrievalCost, SyncTrieCache, TRIE_MAX_CACHE_SIZE};
use trie_storage::hash::CryptoHash;
use trie_storage::refcount::encode_value_with_rc;

fn h(b: u8) -> CryptoHash {
    CryptoHash(vec![b; 32])
}

#[test]
fn large_values_are_never_cached() {
    let mut cache = SyncTrieCache::new(TRIE_MAX_CACHE_SIZE);
    cache.0.put(h(1), vec![7u8; 1000]);
    let (value, cost) = cache.0.chargeable_get(&h(1));
    assert_eq!(value, None);
    assert_eq!(cost, RetrievalCost::Full);
    // One byte below the threshold is cached.
    cache.0.put(h(2), vec![7u8; 999]);
    let (value, _) = cache.0.chargeable_get(&h(2));
    assert_eq!(value, Some(vec![7u8; 999]));
}

#[test]
fn shard_tier_evicts_least_recently_used() {
    // Shard-tier bound 2; three puts while caching shard: the least
    // recently used entry is gone.
    let mut cache = SyncTrieCache::new(2);
    cache.0.put(h(1), b"a".to_vec());
    cache.0.put(h(2), b"b".to_vec());
    cache.0.put(h(3), b"c".to_vec());
    let (a, cost_a) = cache.0.chargeable_get(&h(1));
    assert_eq!(a, None);
    assert_eq!(cost_a, RetrievalCost::Full);
    assert_eq!(cache.0.chargeable_get(&h(2)).0, Some(b"b".to_vec()));
    assert_eq!(cache.0.chargeable_get(&h(3)).0, Some(b"c".to_vec()));
}

#[test]
fn a_get_counts_as_a_use_for_eviction_order() {
    let mut cache = SyncTrieCache::new(2);
    cache.0.put(h(1), b"a".to_vec());
    cache.0.put(h(2), b"b".to_vec());
    // Touch h(1): now h(2) is the least recently used entry.
    assert_eq!(cache.0.chargeable_get(&h(1)).0, Some(b"a".to_vec()));
    cache.0.put(h(3), b"c".to_vec());
    assert_eq!(cache.0.chargeable_get(&h(2)).0, None);
    assert_eq!(cache.0.chargeable_get(&h(1)).0, Some(b"a".to_vec()));
    assert_eq!(cache.0.chargeable_get(&h(3)).0, Some(b"c".to_vec()));
}

#[test]
fn put_while_caching_chunk_is_free_to_retrieve() {
    let mut cache = SyncTrieCache::new(10);
    cache.flip_caching_chunk_state();
    cache.0.put(h(1), b"node".to_vec());
    let (value, cost) = cache.0.chargeable_get(&h(1));
    assert_eq!(value, Some(b"node".to_vec()));
    assert_eq!(cost, RetrievalCost::Free);
}

#[test]
fn promotion_costs_full_once_then_free() {
    // Put while caching shard, flip to caching chunk: the first
    // retrieval promotes at full cost, the next one is free.
    let mut cache = SyncTrieCache::new(10);
    cache.0.put(h(9), vec![5u8; 100]);
    cache.flip_caching_chunk_state();
    let (value, cost) = cache.0.chargeable_get(&h(9));
    assert_eq!(value, Some(vec![5u8; 100]));
    assert_eq!(cost, RetrievalCost::Full);
    let (value, cost) = cache.0.chargeable_get(&h(9));
    assert_eq!(value, Some(vec![5u8; 100]));
    assert_eq!(cost, RetrievalCost::Free);
}

#[test]
fn shard_hit_while_caching_shard_stays_full_cost() {
    let mut cache = SyncTrieCache::new(10);
    cache.0.put(h(4), b"n".to_vec());
    let (value, cost) = cache.0.chargeable_get(&h(4));
    assert_eq!(value, Some(b"n".to_vec()));
    assert_eq!(cost, RetrievalCost::Full);
    // No promotion happened: still full cost.
    let (_, cost) = cache.0.chargeable_get(&h(4));
    assert_eq!(cost, RetrievalCost::Full);
}

#[test]
fn drain_moves_chunk_entries_into_the_shard_tier() {
    let mut cache = SyncTrieCache::new(10);
    cache.flip_caching_chunk_state();
    cache.0.put(h(1), b"a".to_vec());
    cache.0.put(h(2), b"b".to_vec());
    cache.0.drain_chunk_cache();
    // Still caching chunk: a hit now comes from the shard tier, so it
    // promotes at full cost, then is free again.
    let (value, cost) = cache.0.chargeable_get(&h(1));
    assert_eq!(value, Some(b"a".to_vec()));
    assert_eq!(cost, RetrievalCost::Full);
    let (_, cost) = cache.0.chargeable_get(&h(1));
    assert_eq!(cost, RetrievalCost::Free);
    let (value, cost) = cache.0.chargeable_get(&h(2));
    assert_eq!(value, Some(b"b".to_vec()));
    assert_eq!(cost, RetrievalCost::Full);
}

#[test]
fn drain_beyond_capacity_evicts_the_earliest_drained_entries() {
    // With more chunk-tier entries than the shard tier can hold, the
    // drain itself evicts: the entries drained first leave again.
    let mut cache = SyncTrieCache::new(1);
    cache.flip_caching_chunk_state();
    cache.0.put(h(1), b"a".to_vec());
    cache.0.put(h(2), b"b".to_vec());
    cache.0.drain_chunk_cache();
    assert_eq!(cache.0.chargeable_get(&h(1)).0, None);
    assert_eq!(cache.0.chargeable_get(&h(2)).0, Some(b"b".to_vec()));
}

#[test]
fn pop_takes_the_entry_out_of_either_tier() {
    let mut cache = SyncTrieCache::new(10);
    cache.0.put(h(1), b"shard".to_vec());
    cache.flip_caching_chunk_state();
    cache.0.put(h(2), b"chunk".to_vec());
    assert_eq!(cache.0.pop(&h(1)), Some(b"shard".to_vec()));
    assert_eq!(cache.0.pop(&h(2)), Some(b"chunk".to_vec()));
    assert_eq!(cache.0.pop(&h(3)), None);
    assert_eq!(cache.0.chargeable_get(&h(1)).0, None);
    assert_eq!(cache.0.chargeable_get(&h(2)).0, None);
}

#[test]
fn clear_empties_both_tiers() {
    let mut cache = SyncTrieCache::new(10);
    cache.0.put(h(1), b"a".to_vec());
    cache.flip_caching_chunk_state();
    cache.0.put(h(2), b"b".to_vec());
    cache.clear();
    assert_eq!(cache.0.chargeable_get(&h(1)).0, None);
    assert_eq!(cache.0.chargeable_get(&h(2)).0, None);
    // The mode was reset to caching shard: a fresh put is not free.
    cache.0.put(h(3), b"c".to_vec());
    let (_, cost) = cache.0.chargeable_get(&h(3));
    assert_eq!(cost, RetrievalCost::Full);
}

#[test]
fn update_cache_applies_puts_and_evictions() {
    // A batch element whose record decodes to no payload evicts the
    // hash that was previously cached.
    let mut cache = SyncTrieCache::new(10);
    cache.0.put(h(1), b"old".to_vec());
    let deleted = encode_value_with_rc(b"old", 0);
    let live = encode_value_with_rc(b"new", 3);
    cache.update_cache(vec![(h(1), Some(deleted)), (h(2), Some(live)), (h(3), None)]);
    let (value, cost) = cache.0.chargeable_get(&h(1));
    assert_eq!(value, None);
    assert_eq!(cost, RetrievalCost::Full);
    assert_eq!(cache.0.chargeable_get(&h(2)).0, Some(b"new".to_vec()));
    assert_eq!(cache.0.chargeable_get(&h(3)).0, None);
}

#[test]
fn get_cache_position_reports_the_tier() {
    let mut cache = SyncTrieCache::new(10);
    cache.0.put(h(1), b"s".to_vec());
    cache.flip_caching_chunk_state();
    cache.0.put(h(2), b"c".to_vec());
    assert!(matches!(cache.0.get_cache_position(&h(1)), CachePosition::InShard(_)));
    assert!(matches!(cache.0.get_cache_position(&h(2)), CachePosition::InChunk(_)));
    assert!(matches!(cache.0.get_cache_position(&h(3)), CachePosition::Absent));
}
