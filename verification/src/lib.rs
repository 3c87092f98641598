//! Node-retrieval cache for a content-addressed trie.
//!
//! Tree nodes are resolved by content hash, either from an in-memory
//! two-tier cache or from a persistent column store, and every resolution
//! reports whether it was free (already resident in the short-lived chunk
//! tier) or full cost. Three storage backends share one capability
//! interface: the caching production path, a recording variant that keeps
//! every value it returned for later proof assembly, and a replay variant
//! that serves only from a fixed record set.

pub mod cache;
pub mod counter;
pub mod hash;
pub mod kvlist;
pub mod refcount;
pub mod shard_lru;
pub mod storage;
pub mod store;
