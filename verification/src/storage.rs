//! The storage backends behind the tree-walk algorithm.
//!
//! Every backend resolves a content hash to the bytes of a serialized
//! trie node and reports the retrieval cost. The caching backend is the
//! production path; the recording backend remembers every value it
//! returned so a proof can be assembled from them; the replay backend
//! serves only from such a pre-recorded set and tracks which entries
//! were consulted.

use vstd::prelude::*;
use crate::cache::{
    model_chargeable_get, model_drain, model_inv, model_put, CacheModel, CacheState, RetrievalCost,
    SyncTrieCache,
};
use crate::hash::{get_key_from_shard_uid_and_hash, spec_store_key, CryptoHash, ShardUId};
use crate::kvlist::{
    bytes_eq, clone_bytes, kv_get, kv_insert, kv_view, lemma_push_effect, lemma_remove_effect,
    tier_distinct, tier_get, tier_has,
};
use crate::store::{DBCol, Store};

verus! {

/// A failure of node resolution.
#[derive(Debug)]
pub enum StorageError {
    /// The persistent store itself reported an error.
    StorageInternalError,
    /// The store held nothing under a key that domain invariants say
    /// must exist: a data-integrity problem outside this crate.
    StorageInconsistentState(&'static str),
    /// The fixed record set of a replay storage lacks the hash: the
    /// proof under verification is incomplete.
    TrieNodeMissing,
}

/// Whether a hash is among the visited ones.
pub open spec fn visited_has(s: Seq<Seq<u8>>, k: Seq<u8>) -> bool {
    exists|i: int| 0 <= i < s.len() && s[i] == k
}

/// All visited hashes are pairwise distinct.
pub open spec fn visited_distinct(s: Seq<Seq<u8>>) -> bool {
    forall|i: int, j: int| 0 <= i < j < s.len() ==> s[i] != s[j]
}

/// The set view of a vector of hashes.
pub open spec fn visited_view(v: Seq<CryptoHash>) -> Seq<Seq<u8>> {
    v.map_values(|h: CryptoHash| h@)
}

/// Record `hash` as visited, once.
fn mark_visited(v: &mut Vec<CryptoHash>, hash: &CryptoHash)
    requires
        visited_distinct(visited_view(old(v)@)),
    ensures
        visited_distinct(visited_view(final(v)@)),
        forall|k2: Seq<u8>|
            visited_has(visited_view(final(v)@), k2) == (visited_has(visited_view(old(v)@), k2)
                || k2 == hash@),
{
    let ghost s0 = visited_view(v@);
    let n = v.len();
    let mut i: usize = 0;
    while i < n
        invariant
            n == v@.len(),
            0 <= i <= n,
            s0 == visited_view(v@),
            visited_distinct(s0),
            forall|j: int| 0 <= j < i ==> visited_view(v@)[j] != hash@,
        decreases n - i,
    {
        if bytes_eq(v[i].0.as_slice(), hash.0.as_slice()) {
            proof {
                assert(visited_view(v@)[i as int] == hash@);
                assert forall|k2: Seq<u8>|
                    visited_has(visited_view(v@), k2) == (visited_has(s0, k2) || k2
                        == hash@) by {
                    if k2 == hash@ {
                        assert(visited_has(s0, hash@));
                    }
                }
            }
            return ;
        }
        i = i + 1;
    }
    proof {
        if visited_has(s0, hash@) {
            let j = choose|j: int| 0 <= j < s0.len() && s0[j] == hash@;
            assert(visited_view(v@)[j] == hash@);
        }
    }
    v.push(hash.clone());
    proof {
        let s1 = visited_view(v@);
        assert(s1.len() == s0.len() + 1);
        assert(s1[s0.len() as int] == hash@);
        assert forall|j: int| 0 <= j < s0.len() implies s1[j] == s0[j] by {}
        assert forall|k2: Seq<u8>| visited_has(s1, k2) == (visited_has(s0, k2) || k2
            == hash@) by {
            if visited_has(s1, k2) {
                let j = choose|j: int| 0 <= j < s1.len() && s1[j] == k2;
                if j < s0.len() {
                    assert(s0[j] == k2);
                }
            }
            if visited_has(s0, k2) {
                let j = choose|j: int| 0 <= j < s0.len() && s0[j] == k2;
                assert(s1[j] == k2);
            }
        }
        assert forall|a: int, b: int| 0 <= a < b < s1.len() implies s1[a] != s1[b] by {
            if b == s0.len() {
                assert(s1[a] == s0[a]);
            } else {
                assert(s0[a] != s0[b]);
            }
        }
    }
}

/// The capability every storage backend offers to the tree-walk
/// algorithm: resolve a hash to the node's bytes, plainly or together
/// with the retrieval cost. Each backend pins its own transition
/// relation down in `retrieve_spec` and `chargeable_spec`.
pub trait TrieStorage: Sized {
    /// Well-formedness of the backend's state.
    spec fn wf(&self) -> bool;

    /// What `retrieve_raw_bytes` did: how `post` relates to `pre` and
    /// what came back.
    spec fn retrieve_spec(
        pre: Self,
        post: Self,
        hash: CryptoHash,
        r: Result<Vec<u8>, StorageError>,
    ) -> bool;

    /// What `chargeable_retrieve_raw_bytes` did.
    spec fn chargeable_spec(
        pre: Self,
        post: Self,
        hash: CryptoHash,
        r: Result<(Vec<u8>, RetrievalCost), StorageError>,
    ) -> bool;

    /// Get the bytes of the serialized trie node under `hash`.
    fn retrieve_raw_bytes(&mut self, hash: &CryptoHash) -> (r: Result<Vec<u8>, StorageError>)
        requires
            old(self).wf(),
            hash.wf(),
        ensures
            final(self).wf(),
            Self::retrieve_spec(*old(self), *final(self), *hash, r),
    ;

    /// Get the bytes of the serialized trie node under `hash`, with the
    /// cost of the retrieval.
    fn chargeable_retrieve_raw_bytes(&mut self, hash: &CryptoHash) -> (r: Result<
        (Vec<u8>, RetrievalCost),
        StorageError,
    >)
        requires
            old(self).wf(),
            hash.wf(),
        ensures
            final(self).wf(),
            Self::chargeable_spec(*old(self), *final(self), *hash, r),
    ;

    /// This backend as the caching one, where it is that.
    fn as_caching_storage(&self) -> (r: Option<&TrieCachingStorage>) {
        None
    }

    /// This backend as the recording one, where it is that.
    fn as_recording_storage(&self) -> (r: Option<&TrieRecordingStorage>) {
        None
    }

    /// This backend as the replay one, where it is that.
    fn as_partial_storage(&self) -> (r: Option<&TrieMemoryPartialStorage>) {
        None
    }
}

/// The production backend: a per-shard dual-tier cache in front of the
/// persistent store.
pub struct TrieCachingStorage {
    pub store: Store,
    pub cache: SyncTrieCache,
    pub shard_uid: ShardUId,
}

impl TrieCachingStorage {
    pub fn new(store: Store, cache: SyncTrieCache, shard_uid: ShardUId) -> (r: TrieCachingStorage)
        ensures
            r.store == store,
            r.cache == cache,
            r.shard_uid == shard_uid,
    {
        TrieCachingStorage { store, cache, shard_uid }
    }

    /// Begin a new unit of work: reset the mode to `CachingShard` and
    /// drain the chunk tier into the shard tier, so the entries pinned
    /// during the previous unit rejoin ordinary eviction management.
    pub fn prepare_trie_cache(&mut self)
        requires
            model_inv(old(self).cache@),
        ensures
            model_inv(final(self).cache@),
            final(self).cache@ == model_drain(
                CacheModel { mode: CacheState::CachingShard, ..old(self).cache@ },
            ),
            final(self).store == old(self).store,
            final(self).shard_uid == old(self).shard_uid,
    {
        self.cache.0.set_shard_caching();
        self.cache.0.drain_chunk_cache();
    }
}

impl TrieStorage for TrieCachingStorage {
    open spec fn wf(&self) -> bool {
        &&& self.store.wf()
        &&& model_inv(self.cache@)
    }

    open spec fn chargeable_spec(
        pre: Self,
        post: Self,
        hash: CryptoHash,
        r: Result<(Vec<u8>, RetrievalCost), StorageError>,
    ) -> bool {
        let g = model_chargeable_get(pre.cache@, hash@);
        let key = spec_store_key(pre.shard_uid, hash@);
        &&& post.store == pre.store
        &&& post.shard_uid == pre.shard_uid
        &&& if g.1 is Some {
            &&& post.cache@ == g.0
            &&& r matches Ok(p) && Some(p.0@) == g.1 && p.1 == g.2
        } else if pre.store.is_unavailable() {
            &&& post.cache@ == pre.cache@
            &&& r matches Err(e) && e is StorageInternalError
        } else if tier_has(pre.store.contents(), key) {
            &&& post.cache@ == model_put(pre.cache@, hash@, tier_get(pre.store.contents(), key))
            &&& r matches Ok(p) && p.0@ == tier_get(pre.store.contents(), key) && p.1 is Full
        } else {
            &&& post.cache@ == pre.cache@
            &&& r matches Err(e) && e is StorageInconsistentState
        }
    }

    open spec fn retrieve_spec(
        pre: Self,
        post: Self,
        hash: CryptoHash,
        r: Result<Vec<u8>, StorageError>,
    ) -> bool {
        let g = model_chargeable_get(pre.cache@, hash@);
        let key = spec_store_key(pre.shard_uid, hash@);
        &&& post.store == pre.store
        &&& post.shard_uid == pre.shard_uid
        &&& if g.1 is Some {
            &&& post.cache@ == g.0
            &&& r matches Ok(v) && Some(v@) == g.1
        } else if pre.store.is_unavailable() {
            &&& post.cache@ == pre.cache@
            &&& r matches Err(e) && e is StorageInternalError
        } else if tier_has(pre.store.contents(), key) {
            &&& post.cache@ == model_put(pre.cache@, hash@, tier_get(pre.store.contents(), key))
            &&& r matches Ok(v) && v@ == tier_get(pre.store.contents(), key)
        } else {
            &&& post.cache@ == pre.cache@
            &&& r matches Err(e) && e is StorageInconsistentState
        }
    }

    /// Resolve from the cache first; on a miss, fall back to the
    /// persistent store and cache what it returned. A store miss is a
    /// consistency failure, not a plain absence.
    fn chargeable_retrieve_raw_bytes(&mut self, hash: &CryptoHash) -> (r: Result<
        (Vec<u8>, RetrievalCost),
        StorageError,
    >) {
        let got = self.cache.0.chargeable_get(hash);
        match got {
            (Some(val), cost) => Ok((val, cost)),
            (None, _) => {
                let key = get_key_from_shard_uid_and_hash(&self.shard_uid, hash);
                match self.store.get(DBCol::ColState, key.as_slice()) {
                    Err(_) => Err(StorageError::StorageInternalError),
                    Ok(Some(val)) => {
                        self.cache.0.put(hash.clone(), clone_bytes(&val));
                        Ok((val, RetrievalCost::Full))
                    },
                    Ok(None) => Err(StorageError::StorageInconsistentState("Trie node missing")),
                }
            },
        }
    }

    fn retrieve_raw_bytes(&mut self, hash: &CryptoHash) -> (r: Result<Vec<u8>, StorageError>) {
        match self.chargeable_retrieve_raw_bytes(hash) {
            Ok(p) => Ok(p.0),
            Err(e) => Err(e),
        }
    }

    fn as_caching_storage(&self) -> (r: Option<&TrieCachingStorage>) {
        Some(self)
    }
}

/// The proof-building backend: a read-through proxy that remembers
/// every value it has ever returned.
pub struct TrieRecordingStorage {
    pub store: Store,
    pub shard_uid: ShardUId,
    pub recorded: Vec<(CryptoHash, Vec<u8>)>,
}

impl TrieRecordingStorage {
    /// The record set accumulated so far.
    pub open spec fn recorded_view(&self) -> Seq<(Seq<u8>, Seq<u8>)> {
        kv_view(self.recorded@)
    }

    pub fn new(store: Store, shard_uid: ShardUId) -> (r: TrieRecordingStorage)
        ensures
            r.store == store,
            r.shard_uid == shard_uid,
            r.recorded_view() == Seq::<(Seq<u8>, Seq<u8>)>::empty(),
    {
        let r = TrieRecordingStorage { store, shard_uid, recorded: Vec::new() };
        proof {
            assert(r.recorded_view() =~= Seq::<(Seq<u8>, Seq<u8>)>::empty());
        }
        r
    }
}

impl TrieStorage for TrieRecordingStorage {
    /// Everything recorded was returned by the persistent store: the
    /// record set binds each hash to exactly the value the store holds
    /// under that hash's key.
    open spec fn wf(&self) -> bool {
        &&& self.store.wf()
        &&& tier_distinct(self.recorded_view())
        &&& forall|k: Seq<u8>|
            #[trigger] tier_has(self.recorded_view(), k) ==> (tier_has(
                self.store.contents(),
                spec_store_key(self.shard_uid, k),
            ) && tier_get(self.recorded_view(), k) == tier_get(
                self.store.contents(),
                spec_store_key(self.shard_uid, k),
            ))
    }

    open spec fn retrieve_spec(
        pre: Self,
        post: Self,
        hash: CryptoHash,
        r: Result<Vec<u8>, StorageError>,
    ) -> bool {
        let key = spec_store_key(pre.shard_uid, hash@);
        &&& post.store == pre.store
        &&& post.shard_uid == pre.shard_uid
        &&& if tier_has(pre.recorded_view(), hash@) {
            &&& post.recorded_view() == pre.recorded_view()
            &&& r matches Ok(v) && v@ == tier_get(pre.recorded_view(), hash@)
        } else if pre.store.is_unavailable() {
            &&& post.recorded_view() == pre.recorded_view()
            &&& r matches Err(e) && e is StorageInternalError
        } else if tier_has(pre.store.contents(), key) {
            &&& post.recorded_view() == pre.recorded_view().push(
                (hash@, tier_get(pre.store.contents(), key)),
            )
            &&& r matches Ok(v) && v@ == tier_get(pre.store.contents(), key)
        } else {
            &&& post.recorded_view() == pre.recorded_view()
            &&& r matches Err(e) && e is StorageInconsistentState
        }
    }

    open spec fn chargeable_spec(
        pre: Self,
        post: Self,
        hash: CryptoHash,
        r: Result<(Vec<u8>, RetrievalCost), StorageError>,
    ) -> bool {
        &&& match r {
            Ok(p) => Self::retrieve_spec(pre, post, hash, Ok(p.0)) && p.1 is Full,
            Err(e) => Self::retrieve_spec(pre, post, hash, Err(e)),
        }
    }

    /// Serve an already recorded hash from the record; otherwise read
    /// the store, record what it returned, and hand it out. One store
    /// query per distinct hash, however often it is resolved.
    fn retrieve_raw_bytes(&mut self, hash: &CryptoHash) -> (r: Result<Vec<u8>, StorageError>) {
        let ghost pre = *self;
        match kv_get(&self.recorded, hash) {
            Some(v) => Ok(v),
            None => {
                let key = get_key_from_shard_uid_and_hash(&self.shard_uid, hash);
                match self.store.get(DBCol::ColState, key.as_slice()) {
                    Err(_) => Err(StorageError::StorageInternalError),
                    Ok(Some(val)) => {
                        kv_insert(&mut self.recorded, hash.clone(), clone_bytes(&val));
                        proof {
                            lemma_remove_effect(pre.recorded_view(), hash@);
                            lemma_push_effect(pre.recorded_view(), hash@, val@);
                            assert forall|k: Seq<u8>|
                                #[trigger] tier_has(self.recorded_view(), k) implies (tier_has(
                                self.store.contents(),
                                spec_store_key(self.shard_uid, k),
                            ) && tier_get(self.recorded_view(), k) == tier_get(
                                self.store.contents(),
                                spec_store_key(self.shard_uid, k),
                            )) by {
                                if k != hash@ {
                                    assert(tier_has(pre.recorded_view(), k));
                                }
                            }
                        }
                        Ok(val)
                    },
                    Ok(None) => Err(StorageError::StorageInconsistentState("Trie node missing")),
                }
            },
        }
    }

    fn chargeable_retrieve_raw_bytes(&mut self, hash: &CryptoHash) -> (r: Result<
        (Vec<u8>, RetrievalCost),
        StorageError,
    >) {
        match self.retrieve_raw_bytes(hash) {
            Ok(v) => Ok((v, RetrievalCost::Full)),
            Err(e) => Err(e),
        }
    }

    fn as_recording_storage(&self) -> (r: Option<&TrieRecordingStorage>) {
        Some(self)
    }
}

/// Recording is complete and faithful: every hash a recording storage
/// has accumulated is bound to exactly the value the persistent store
/// holds under that hash's key — the record set is precisely the set of
/// distinct pairs the store returned.
pub proof fn lemma_recording_complete(s: TrieRecordingStorage, k: Seq<u8>)
    requires
        s.wf(),
        tier_has(s.recorded_view(), k),
    ensures
        tier_has(s.store.contents(), spec_store_key(s.shard_uid, k)),
        tier_get(s.recorded_view(), k) == tier_get(
            s.store.contents(),
            spec_store_key(s.shard_uid, k),
        ),
{
}

/// The proof-verification backend: serves exclusively from a fixed,
/// externally supplied record set and tracks which entries were
/// actually consulted.
pub struct TrieMemoryPartialStorage {
    pub recorded_storage: Vec<(CryptoHash, Vec<u8>)>,
    pub visited_nodes: Vec<CryptoHash>,
}

impl TrieMemoryPartialStorage {
    /// The fixed record set under verification.
    pub open spec fn recorded_view(&self) -> Seq<(Seq<u8>, Seq<u8>)> {
        kv_view(self.recorded_storage@)
    }

    /// The hashes resolved so far.
    pub open spec fn visited(&self) -> Seq<Seq<u8>> {
        visited_view(self.visited_nodes@)
    }

    pub fn new(recorded_storage: Vec<(CryptoHash, Vec<u8>)>) -> (r: TrieMemoryPartialStorage)
        requires
            tier_distinct(kv_view(recorded_storage@)),
        ensures
            r.recorded_view() == kv_view(recorded_storage@),
            r.visited() == Seq::<Seq<u8>>::empty(),
            r.wf(),
    {
        let r = TrieMemoryPartialStorage { recorded_storage, visited_nodes: Vec::new() };
        proof {
            assert(r.visited() =~= Seq::<Seq<u8>>::empty());
        }
        r
    }
}

impl TrieStorage for TrieMemoryPartialStorage {
    open spec fn wf(&self) -> bool {
        &&& tier_distinct(self.recorded_view())
        &&& visited_distinct(self.visited())
    }

    open spec fn retrieve_spec(
        pre: Self,
        post: Self,
        hash: CryptoHash,
        r: Result<Vec<u8>, StorageError>,
    ) -> bool {
        &&& post.recorded_view() == pre.recorded_view()
        &&& if tier_has(pre.recorded_view(), hash@) {
            &&& r matches Ok(v) && v@ == tier_get(pre.recorded_view(), hash@)
            &&& forall|k2: Seq<u8>|
                visited_has(post.visited(), k2) == (visited_has(pre.visited(), k2) || k2 == hash@)
        } else {
            &&& r matches Err(e) && e is TrieNodeMissing
            &&& post.visited() == pre.visited()
        }
    }

    open spec fn chargeable_spec(
        pre: Self,
        post: Self,
        hash: CryptoHash,
        r: Result<(Vec<u8>, RetrievalCost), StorageError>,
    ) -> bool {
        &&& match r {
            Ok(p) => Self::retrieve_spec(pre, post, hash, Ok(p.0)) && p.1 is Full,
            Err(e) => Self::retrieve_spec(pre, post, hash, Err(e)),
        }
    }

    /// Resolve from the fixed record set, marking the hash visited;
    /// fail with `TrieNodeMissing` when the proof does not contain it.
    fn retrieve_raw_bytes(&mut self, hash: &CryptoHash) -> (r: Result<Vec<u8>, StorageError>) {
        match kv_get(&self.recorded_storage, hash) {
            Some(v) => {
                mark_visited(&mut self.visited_nodes, hash);
                Ok(v)
            },
            None => Err(StorageError::TrieNodeMissing),
        }
    }

    fn chargeable_retrieve_raw_bytes(&mut self, hash: &CryptoHash) -> (r: Result<
        (Vec<u8>, RetrievalCost),
        StorageError,
    >) {
        match self.retrieve_raw_bytes(hash) {
            Ok(v) => Ok((v, RetrievalCost::Full)),
            Err(e) => Err(e),
        }
    }

    fn as_partial_storage(&self) -> (r: Option<&TrieMemoryPartialStorage>) {
        Some(self)
    }
}

} // verus!
