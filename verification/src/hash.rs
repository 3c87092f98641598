//! Content hashes, shard identifiers, and the store-key encoding.

use vstd::prelude::*;
use vstd::bytes::{
    lemma_auto_spec_u32_to_from_le_bytes, spec_u32_from_le_bytes, spec_u32_to_le_bytes,
    u32_from_le_bytes, u32_to_le_bytes,
};
use vstd::slice::{slice_subrange, slice_to_vec};

verus! {

/// Fixed-size content identifier of a trie node: exactly 32 bytes.
/// Equality is byte-exact.
pub struct CryptoHash(pub Vec<u8>);

impl View for CryptoHash {
    type V = Seq<u8>;

    open spec fn view(&self) -> Seq<u8> {
        self.0@
    }
}

impl CryptoHash {
    /// A hash value is exactly 32 bytes of content digest.
    pub open spec fn wf(&self) -> bool {
        self@.len() == 32
    }

    pub fn new(bytes: Vec<u8>) -> (r: CryptoHash)
        requires
            bytes@.len() == 32,
        ensures
            r@ == bytes@,
            r.wf(),
    {
        CryptoHash(bytes)
    }
}

impl Clone for CryptoHash {
    fn clone(&self) -> (r: Self)
        ensures
            r@ == self@,
    {
        CryptoHash(slice_to_vec(self.0.as_slice()))
    }
}

/// Fixed-size identifier of a shard: a version number and a shard ordinal,
/// laid out as 8 bytes (two little-endian 32-bit words) at the front of
/// every store key.
#[derive(Clone, Copy)]
pub struct ShardUId {
    pub version: u32,
    pub shard_id: u32,
}

impl ShardUId {
    /// The 8-byte wire form: version, then shard ordinal, both little-endian.
    pub open spec fn spec_bytes(self) -> Seq<u8> {
        spec_u32_to_le_bytes(self.version) + spec_u32_to_le_bytes(self.shard_id)
    }

    pub fn to_bytes(&self) -> (r: Vec<u8>)
        ensures
            r@ == self.spec_bytes(),
            r@.len() == 8,
    {
        proof {
            lemma_auto_spec_u32_to_from_le_bytes();
        }
        let mut out = u32_to_le_bytes(self.version);
        let mut tail = u32_to_le_bytes(self.shard_id);
        out.append(&mut tail);
        out
    }

    pub fn try_from_bytes(bytes: &[u8]) -> (r: Option<ShardUId>)
        ensures
            bytes@.len() == 8 <==> r is Some,
            r matches Some(uid) ==> uid.spec_bytes() == bytes@,
    {
        if bytes.len() != 8 {
            return None;
        }
        proof {
            lemma_auto_spec_u32_to_from_le_bytes();
        }
        let version = u32_from_le_bytes(slice_subrange(bytes, 0, 4));
        let shard_id = u32_from_le_bytes(slice_subrange(bytes, 4, 8));
        let uid = ShardUId { version, shard_id };
        proof {
            assert(uid.spec_bytes() =~= bytes@);
        }
        Some(uid)
    }
}

/// The persistent-store key for a node: exactly 40 bytes, the shard
/// identifier followed by the content hash.
pub open spec fn spec_store_key(uid: ShardUId, hash: Seq<u8>) -> Seq<u8> {
    uid.spec_bytes() + hash
}

/// Encode the 40-byte store key for a node: 8 bytes of shard identifier,
/// then the 32-byte hash.
pub fn get_key_from_shard_uid_and_hash(shard_uid: &ShardUId, hash: &CryptoHash) -> (r: Vec<u8>)
    requires
        hash.wf(),
    ensures
        r@ == spec_store_key(*shard_uid, hash@),
        r@.len() == 40,
{
    let mut key = shard_uid.to_bytes();
    let mut tail = slice_to_vec(hash.0.as_slice());
    key.append(&mut tail);
    key
}

/// Decode a store key back into its shard identifier and hash. Fails
/// exactly when the key is not 40 bytes long.
pub fn get_shard_uid_and_hash_from_key(key: &[u8]) -> (r: Option<(ShardUId, CryptoHash)>)
    ensures
        key@.len() == 40 <==> r is Some,
        r matches Some(p) ==> {
            &&& p.1.wf()
            &&& spec_store_key(p.0, p.1@) == key@
        },
{
    if key.len() != 40 {
        return None;
    }
    let uid = match ShardUId::try_from_bytes(slice_subrange(key, 0, 8)) {
        Some(uid) => uid,
        None => {
            return None;
        },
    };
    let hash = CryptoHash(slice_to_vec(slice_subrange(key, 8, 40)));
    proof {
        assert(spec_store_key(uid, hash@) =~= key@);
    }
    Some((uid, hash))
}

} // verus!
