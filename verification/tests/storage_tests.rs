use trie_storage::cache::{RetrievalCost, SyncTrieCache};
use trie_storage::counter::TouchedNodesCounter;
use trie_storage::hash::{
    get_key_from_shard_uid_and_hash, get_shard_uid_and_hash_from_key, CryptoHash, ShardUId,
};
use trie_storage::refcount::{decode_value_with_rc, encode_value_with_rc};
use trie_storage::storage::{
    StorageError, TrieCachingStorage, TrieMemoryPartialStorage, TrieRecordingStorage, TrieStorage,
};
use trie_storage::store::{DBCol, Store};

fn h(b: u8) -> CryptoHash {
    CryptoHash(vec![b; 32])
}

fn uid() -> ShardUId {
    ShardUId { version: 1, shard_id: 3 }
}

fn store_with(entries: &[(u8, &[u8])]) -> Store {
    let mut store = Store::new();
    for (b, value) in entries {
        let key = get_key_from_shard_uid_and_hash(&uid(), &h(*b));
        store.set(DBCol::ColState, key, value.to_vec());
    }
    store
}

#[test]
fn key_encoding_round_trips() {
    let key = get_key_from_shard_uid_and_hash(&uid(), &h(7));
    assert_eq!(key.len(), 40);
    assert_eq!(&key[8..], &[7u8; 32]);
    let (u, hash) = get_shard_uid_and_hash_from_key(key.as_slice()).unwrap();
    assert_eq!(u.version, 1);
    assert_eq!(u.shard_id, 3);
    assert_eq!(hash.0, vec![7u8; 32]);
}

#[test]
fn key_decoding_rejects_wrong_lengths() {
    assert!(get_shard_uid_and_hash_from_key(&[0u8; 39]).is_none());
    assert!(get_shard_uid_and_hash_from_key(&[0u8; 41]).is_none());
    assert!(get_shard_uid_and_hash_from_key(&[]).is_none());
}

#[test]
fn refcount_encoding_round_trips() {
    let raw = encode_value_with_rc(b"abc", 5);
    assert_eq!(raw.len(), 11);
    let (payload, rc) = decode_value_with_rc(raw.as_slice());
    assert_eq!(payload, Some(b"abc".to_vec()));
    assert_eq!(rc, 5);
    let deleted = encode_value_with_rc(b"abc", 0);
    assert_eq!(decode_value_with_rc(deleted.as_slice()), (None, 0));
    // Too short to carry a count.
    assert_eq!(decode_value_with_rc(&[1, 2, 3]), (None, 0));
}

#[test]
fn store_reports_unavailability() {
    let mut store = store_with(&[(1, b"x")]);
    let key = get_key_from_shard_uid_and_hash(&uid(), &h(1));
    assert_eq!(store.get(DBCol::ColState, key.as_slice()), Ok(Some(b"x".to_vec())));
    store.set_unavailable(true);
    assert!(store.get(DBCol::ColState, key.as_slice()).is_err());
}

#[test]
fn caching_storage_falls_back_to_the_store_then_caches() {
    let store = store_with(&[(1, b"node-one")]);
    let mut storage = TrieCachingStorage::new(store, SyncTrieCache::new(10), uid());
    storage.cache.flip_caching_chunk_state();
    let (value, cost) = storage.chargeable_retrieve_raw_bytes(&h(1)).unwrap();
    assert_eq!(value, b"node-one".to_vec());
    assert_eq!(cost, RetrievalCost::Full);
    // The fallback cached the value in the chunk tier: now free.
    let (value, cost) = storage.chargeable_retrieve_raw_bytes(&h(1)).unwrap();
    assert_eq!(value, b"node-one".to_vec());
    assert_eq!(cost, RetrievalCost::Free);
}

#[test]
fn caching_storage_reports_a_missing_node_as_inconsistency() {
    let store = store_with(&[]);
    let mut storage = TrieCachingStorage::new(store, SyncTrieCache::new(10), uid());
    match storage.retrieve_raw_bytes(&h(9)) {
        Err(StorageError::StorageInconsistentState(_)) => {},
        other => panic!("expected an inconsistent-state failure, got {:?}", other.is_ok()),
    }
}

#[test]
fn caching_storage_reports_store_failures() {
    let mut store = store_with(&[(1, b"x")]);
    store.set_unavailable(true);
    let mut storage = TrieCachingStorage::new(store, SyncTrieCache::new(10), uid());
    assert!(matches!(
        storage.retrieve_raw_bytes(&h(1)),
        Err(StorageError::StorageInternalError)
    ));
}

#[test]
fn prepare_trie_cache_resets_mode_and_drains() {
    let store = store_with(&[(1, b"node-one")]);
    let mut storage = TrieCachingStorage::new(store, SyncTrieCache::new(10), uid());
    storage.cache.flip_caching_chunk_state();
    let _ = storage.retrieve_raw_bytes(&h(1)).unwrap();
    // The value sits pinned in the chunk tier; a new unit of work moves
    // it under ordinary eviction management and resets the mode.
    storage.prepare_trie_cache();
    let (value, cost) = storage.chargeable_retrieve_raw_bytes(&h(1)).unwrap();
    assert_eq!(value, b"node-one".to_vec());
    assert_eq!(cost, RetrievalCost::Full);
}

#[test]
fn recording_storage_records_each_store_value_once() {
    let store = store_with(&[(1, b"one"), (2, b"two")]);
    let mut storage = TrieRecordingStorage::new(store, uid());
    assert_eq!(storage.retrieve_raw_bytes(&h(1)).unwrap(), b"one".to_vec());
    assert_eq!(storage.retrieve_raw_bytes(&h(1)).unwrap(), b"one".to_vec());
    assert_eq!(storage.retrieve_raw_bytes(&h(2)).unwrap(), b"two".to_vec());
    // Three resolutions of two distinct hashes: exactly the two pairs
    // the store returned are recorded.
    assert_eq!(storage.recorded.len(), 2);
    assert_eq!(storage.recorded[0].0 .0, vec![1u8; 32]);
    assert_eq!(storage.recorded[0].1, b"one".to_vec());
    assert_eq!(storage.recorded[1].0 .0, vec![2u8; 32]);
    assert_eq!(storage.recorded[1].1, b"two".to_vec());
}

#[test]
fn recording_storage_reports_a_missing_node_as_inconsistency() {
    let store = store_with(&[(1, b"one")]);
    let mut storage = TrieRecordingStorage::new(store, uid());
    assert!(matches!(
        storage.retrieve_raw_bytes(&h(2)),
        Err(StorageError::StorageInconsistentState(_))
    ));
    assert_eq!(storage.recorded.len(), 0);
}

#[test]
fn recording_storage_serves_recorded_values_without_the_store() {
    let mut store = store_with(&[(1, b"one")]);
    store.set_unavailable(true);
    let mut storage = TrieRecordingStorage::new(store, uid());
    assert!(matches!(
        storage.retrieve_raw_bytes(&h(1)),
        Err(StorageError::StorageInternalError)
    ));
}

#[test]
fn replay_storage_resolves_exactly_the_record_set() {
    let records = vec![(h(1), b"one".to_vec()), (h(2), b"two".to_vec())];
    let mut storage = TrieMemoryPartialStorage::new(records);
    assert_eq!(storage.retrieve_raw_bytes(&h(1)).unwrap(), b"one".to_vec());
    assert!(matches!(
        storage.retrieve_raw_bytes(&h(3)),
        Err(StorageError::TrieNodeMissing)
    ));
    // The visited set holds the distinct successfully resolved hashes.
    assert_eq!(storage.retrieve_raw_bytes(&h(1)).unwrap(), b"one".to_vec());
    assert_eq!(storage.visited_nodes.len(), 1);
    assert_eq!(storage.visited_nodes[0].0, vec![1u8; 32]);
    assert_eq!(storage.retrieve_raw_bytes(&h(2)).unwrap(), b"two".to_vec());
    assert_eq!(storage.visited_nodes.len(), 2);
}

#[test]
fn chargeable_retrieval_is_full_cost_on_non_caching_backends() {
    let records = vec![(h(1), b"one".to_vec())];
    let mut replay = TrieMemoryPartialStorage::new(records);
    let (value, cost) = replay.chargeable_retrieve_raw_bytes(&h(1)).unwrap();
    assert_eq!(value, b"one".to_vec());
    assert_eq!(cost, RetrievalCost::Full);
    let store = store_with(&[(1, b"one")]);
    let mut recording = TrieRecordingStorage::new(store, uid());
    let (value, cost) = recording.chargeable_retrieve_raw_bytes(&h(1)).unwrap();
    assert_eq!(value, b"one".to_vec());
    assert_eq!(cost, RetrievalCost::Full);
}

#[test]
fn each_backend_downcasts_only_to_itself() {
    let caching = TrieCachingStorage::new(store_with(&[]), SyncTrieCache::new(10), uid());
    assert!(caching.as_caching_storage().is_some());
    assert!(caching.as_recording_storage().is_none());
    assert!(caching.as_partial_storage().is_none());
    let recording = TrieRecordingStorage::new(store_with(&[]), uid());
    assert!(recording.as_recording_storage().is_some());
    assert!(recording.as_caching_storage().is_none());
    let replay = TrieMemoryPartialStorage::new(vec![]);
    assert!(replay.as_partial_storage().is_some());
    assert!(replay.as_caching_storage().is_none());
}

#[test]
fn touched_nodes_counter_counts_every_increment() {
    let mut counter = TouchedNodesCounter::new();
    assert_eq!(counter.get(), 0);
    counter.increment();
    counter.increment();
    counter.increment();
    assert_eq!(counter.get(), 3);
    let default_counter = TouchedNodesCounter::default();
    assert_eq!(default_counter.get(), 0);
}
