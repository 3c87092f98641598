//! The value-with-reference-count record format of the persistent store.
//!
//! A stored record is the node payload followed by an 8-byte
//! little-endian reference count. A record whose count is zero (or which
//! is too short to carry a count) denotes a logically deleted value.

use vstd::prelude::*;
use vstd::bytes::{
    lemma_auto_spec_u64_to_from_le_bytes, spec_u64_from_le_bytes, spec_u64_to_le_bytes,
    u64_from_le_bytes, u64_to_le_bytes,
};
use vstd::slice::{slice_subrange, slice_to_vec};

verus! {

/// The reference count carried by a raw record: its trailing 8 bytes,
/// little-endian; zero when the record is too short to carry one.
pub open spec fn spec_refcount(bytes: Seq<u8>) -> u64 {
    if bytes.len() >= 8 {
        spec_u64_from_le_bytes(bytes.subrange(bytes.len() - 8, bytes.len() as int))
    } else {
        0
    }
}

/// The payload carried by a raw record: everything before the count,
/// present exactly when the count is positive.
pub open spec fn spec_payload(bytes: Seq<u8>) -> Option<Seq<u8>> {
    if bytes.len() >= 8 && spec_refcount(bytes) > 0 {
        Some(bytes.subrange(0, bytes.len() - 8))
    } else {
        None
    }
}

/// Split a raw stored record into its optional payload and its
/// reference count. A present payload is a live value; an absent one
/// means the count dropped to zero and the value is logically deleted.
pub fn decode_value_with_rc(bytes: &[u8]) -> (r: (Option<Vec<u8>>, u64))
    ensures
        crate::kvlist::opt_bytes(r.0) == spec_payload(bytes@),
        r.1 == spec_refcount(bytes@),
{
    let n = bytes.len();
    if n < 8 {
        return (None, 0);
    }
    let rc = u64_from_le_bytes(slice_subrange(bytes, n - 8, n));
    if rc > 0 {
        (Some(slice_to_vec(slice_subrange(bytes, 0, n - 8))), rc)
    } else {
        (None, rc)
    }
}

/// Append the little-endian reference count to a payload, forming the
/// raw record the store holds.
pub fn encode_value_with_rc(value: &[u8], rc: u64) -> (r: Vec<u8>)
    ensures
        r@ == value@ + spec_u64_to_le_bytes(rc),
{
    let mut out = slice_to_vec(value);
    let mut tail = u64_to_le_bytes(rc);
    out.append(&mut tail);
    out
}

/// Decoding inverts encoding: the count read back is the count written,
/// and the payload survives exactly when the count is positive.
pub proof fn lemma_encode_decode(value: Seq<u8>, rc: u64)
    ensures
        spec_refcount(value + spec_u64_to_le_bytes(rc)) == rc,
        rc > 0 ==> spec_payload(value + spec_u64_to_le_bytes(rc)) == Some(value),
        rc == 0 ==> spec_payload(value + spec_u64_to_le_bytes(rc)) is None,
{
    lemma_auto_spec_u64_to_from_le_bytes();
    let enc = value + spec_u64_to_le_bytes(rc);
    assert(enc.subrange(enc.len() - 8, enc.len() as int) =~= spec_u64_to_le_bytes(rc));
    assert(enc.subrange(0, enc.len() - 8) =~= value);
}

} // verus!
