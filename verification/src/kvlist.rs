//! Association sequences of byte keys and byte values.
//!
//! Both cache tiers, the persistent-store model and the recorded node
//! sets are specified as sequences of `(key, value)` pairs with pairwise
//! distinct keys. The spec functions here say what such a sequence
//! holds; the executable functions operate on vectors whose view is such
//! a sequence.

use vstd::prelude::*;
use vstd::slice::{slice_index_get, slice_to_vec};
use crate::hash::CryptoHash;

verus! {

/// The value view of an optional byte vector.
pub open spec fn opt_bytes(o: Option<Vec<u8>>) -> Option<Seq<u8>> {
    match o {
        Some(v) => Some(v@),
        None => None,
    }
}

/// Whether some entry of `s` carries the key `k`.
pub open spec fn tier_has(s: Seq<(Seq<u8>, Seq<u8>)>, k: Seq<u8>) -> bool {
    exists|i: int| 0 <= i < s.len() && s[i].0 == k
}

/// The index of the entry carrying key `k` (meaningful under `tier_has`
/// and key distinctness).
pub open spec fn tier_at(s: Seq<(Seq<u8>, Seq<u8>)>, k: Seq<u8>) -> int {
    choose|i: int| 0 <= i < s.len() && s[i].0 == k
}

/// The value stored under key `k`.
pub open spec fn tier_get(s: Seq<(Seq<u8>, Seq<u8>)>, k: Seq<u8>) -> Seq<u8> {
    s[tier_at(s, k)].1
}

/// `s` with the entry carrying key `k` taken out; `s` itself when no
/// entry carries it.
pub open spec fn tier_remove(s: Seq<(Seq<u8>, Seq<u8>)>, k: Seq<u8>) -> Seq<(Seq<u8>, Seq<u8>)> {
    if tier_has(s, k) {
        s.remove(tier_at(s, k))
    } else {
        s
    }
}

/// All keys of `s` are pairwise distinct.
pub open spec fn tier_distinct(s: Seq<(Seq<u8>, Seq<u8>)>) -> bool {
    forall|i: int, j: int| 0 <= i < j < s.len() ==> s[i].0 != s[j].0
}

/// Under distinctness, the entry index of a present key is unique.
pub proof fn lemma_at_unique(s: Seq<(Seq<u8>, Seq<u8>)>, k: Seq<u8>, i: int)
    requires
        tier_distinct(s),
        0 <= i < s.len(),
        s[i].0 == k,
    ensures
        tier_has(s, k),
        tier_at(s, k) == i,
        tier_get(s, k) == s[i].1,
{
    assert(tier_has(s, k));
    let j = tier_at(s, k);
    assert(0 <= j < s.len() && s[j].0 == k);
    if i < j {
        assert(s[i].0 != s[j].0);
    } else if j < i {
        assert(s[j].0 != s[i].0);
    }
}

/// What taking a key out does to membership, lookup, distinctness and
/// length.
pub proof fn lemma_remove_effect(s: Seq<(Seq<u8>, Seq<u8>)>, k: Seq<u8>)
    requires
        tier_distinct(s),
    ensures
        tier_distinct(tier_remove(s, k)),
        !tier_has(tier_remove(s, k), k),
        forall|k2: Seq<u8>| k2 != k ==> tier_has(tier_remove(s, k), k2) == tier_has(s, k2),
        forall|k2: Seq<u8>|
            k2 != k && tier_has(s, k2) ==> tier_get(tier_remove(s, k), k2) == tier_get(s, k2),
        tier_has(s, k) ==> tier_remove(s, k).len() == s.len() - 1,
        !tier_has(s, k) ==> tier_remove(s, k) == s,
{
    if tier_has(s, k) {
        let i = tier_at(s, k);
        assert(0 <= i < s.len() && s[i].0 == k);
        let r = s.remove(i);
        assert(r.len() == s.len() - 1);
        assert forall|j: int| 0 <= j < r.len() implies r[j] == (if j < i {
            s[j]
        } else {
            s[j + 1]
        }) by {}
        assert(tier_distinct(r)) by {
            assert forall|a: int, b: int| 0 <= a < b < r.len() implies r[a].0 != r[b].0 by {
                let a0 = if a < i {
                    a
                } else {
                    a + 1
                };
                let b0 = if b < i {
                    b
                } else {
                    b + 1
                };
                assert(r[a] == s[a0] && r[b] == s[b0]);
                assert(s[a0].0 != s[b0].0);
            }
        }
        assert(!tier_has(r, k)) by {
            if tier_has(r, k) {
                let j = choose|j: int| 0 <= j < r.len() && r[j].0 == k;
                let j0 = if j < i {
                    j
                } else {
                    j + 1
                };
                assert(s[j0].0 == k && j0 != i);
                lemma_at_unique(s, k, j0);
            }
        }
        assert forall|k2: Seq<u8>| k2 != k implies tier_has(r, k2) == tier_has(s, k2) by {
            if tier_has(r, k2) {
                let j = tier_at(r, k2);
                assert(0 <= j < r.len() && r[j].0 == k2);
                let j0 = if j < i {
                    j
                } else {
                    j + 1
                };
                assert(s[j0].0 == k2);
                assert(tier_has(s, k2));
            }
            if tier_has(s, k2) {
                let j0 = tier_at(s, k2);
                assert(0 <= j0 < s.len() && s[j0].0 == k2);
                assert(j0 != i);
                let j = if j0 < i {
                    j0
                } else {
                    j0 - 1
                };
                assert(r[j].0 == k2);
                assert(tier_has(r, k2));
            }
        }
        assert forall|k2: Seq<u8>| k2 != k && tier_has(s, k2) implies tier_get(r, k2) == tier_get(
            s,
            k2,
        ) by {
            let j0 = tier_at(s, k2);
            assert(0 <= j0 < s.len() && s[j0].0 == k2);
            assert(j0 != i);
            let j = if j0 < i {
                j0
            } else {
                j0 - 1
            };
            assert(r[j] == s[j0]);
            lemma_at_unique(r, k2, j);
        }
    }
}

/// What appending a fresh entry does to membership, lookup and
/// distinctness.
pub proof fn lemma_push_effect(s: Seq<(Seq<u8>, Seq<u8>)>, k: Seq<u8>, v: Seq<u8>)
    requires
        tier_distinct(s),
        !tier_has(s, k),
    ensures
        tier_distinct(s.push((k, v))),
        tier_has(s.push((k, v)), k),
        tier_get(s.push((k, v)), k) == v,
        forall|k2: Seq<u8>| k2 != k ==> tier_has(s.push((k, v)), k2) == tier_has(s, k2),
        forall|k2: Seq<u8>|
            k2 != k && tier_has(s, k2) ==> tier_get(s.push((k, v)), k2) == tier_get(s, k2),
        s.push((k, v)).len() == s.len() + 1,
{
    let r = s.push((k, v));
    assert forall|j: int| 0 <= j < s.len() implies r[j] == s[j] by {}
    assert(r[s.len() as int] == (k, v));
    assert(tier_distinct(r)) by {
        assert forall|a: int, b: int| 0 <= a < b < r.len() implies r[a].0 != r[b].0 by {
            if b < s.len() {
                assert(s[a].0 != s[b].0);
            } else {
                assert(r[b].0 == k);
                assert(r[a] == s[a]);
                if s[a].0 == k {
                    assert(tier_has(s, k));
                }
            }
        }
    }
    lemma_at_unique(r, k, s.len() as int);
    assert forall|k2: Seq<u8>| k2 != k implies tier_has(r, k2) == tier_has(s, k2) by {
        if tier_has(r, k2) {
            let j = tier_at(r, k2);
            assert(0 <= j < r.len() && r[j].0 == k2);
            assert(j != s.len());
            assert(s[j].0 == k2);
        }
        if tier_has(s, k2) {
            let j = tier_at(s, k2);
            assert(r[j].0 == k2);
        }
    }
    assert forall|k2: Seq<u8>| k2 != k && tier_has(s, k2) implies tier_get(r, k2) == tier_get(
        s,
        k2,
    ) by {
        let j = tier_at(s, k2);
        assert(0 <= j < s.len() && s[j].0 == k2);
        assert(r[j] == s[j]);
        lemma_at_unique(r, k2, j);
    }
}

/// What prepending a fresh entry does to membership, lookup and
/// distinctness.
pub proof fn lemma_front_effect(s: Seq<(Seq<u8>, Seq<u8>)>, k: Seq<u8>, v: Seq<u8>)
    requires
        tier_distinct(s),
        !tier_has(s, k),
    ensures
        tier_distinct(seq![(k, v)] + s),
        tier_has(seq![(k, v)] + s, k),
        tier_get(seq![(k, v)] + s, k) == v,
        forall|k2: Seq<u8>| k2 != k ==> tier_has(seq![(k, v)] + s, k2) == tier_has(s, k2),
        forall|k2: Seq<u8>|
            k2 != k && tier_has(s, k2) ==> tier_get(seq![(k, v)] + s, k2) == tier_get(s, k2),
        (seq![(k, v)] + s).len() == s.len() + 1,
{
    let r = seq![(k, v)] + s;
    assert(r[0] == (k, v));
    assert forall|j: int| 1 <= j < r.len() implies r[j] == s[j - 1] by {}
    assert(tier_distinct(r)) by {
        assert forall|a: int, b: int| 0 <= a < b < r.len() implies r[a].0 != r[b].0 by {
            if a == 0 {
                assert(r[b] == s[b - 1]);
                if s[b - 1].0 == k {
                    assert(tier_has(s, k));
                }
            } else {
                assert(s[a - 1].0 != s[b - 1].0);
            }
        }
    }
    lemma_at_unique(r, k, 0);
    assert forall|k2: Seq<u8>| k2 != k implies tier_has(r, k2) == tier_has(s, k2) by {
        if tier_has(r, k2) {
            let j = tier_at(r, k2);
            assert(0 <= j < r.len() && r[j].0 == k2);
            assert(j != 0);
            assert(s[j - 1].0 == k2);
        }
        if tier_has(s, k2) {
            let j = tier_at(s, k2);
            assert(r[j + 1].0 == k2);
        }
    }
    assert forall|k2: Seq<u8>| k2 != k && tier_has(s, k2) implies tier_get(r, k2) == tier_get(
        s,
        k2,
    ) by {
        let j = tier_at(s, k2);
        assert(0 <= j < s.len() && s[j].0 == k2);
        assert(r[j + 1] == s[j]);
        lemma_at_unique(r, k2, j + 1);
    }
}

/// What dropping the last entry does to membership and lookup.
pub proof fn lemma_drop_last_effect(s: Seq<(Seq<u8>, Seq<u8>)>)
    requires
        tier_distinct(s),
        s.len() > 0,
    ensures
        tier_distinct(s.drop_last()),
        !tier_has(s.drop_last(), s.last().0),
        forall|k2: Seq<u8>|
            tier_has(s.drop_last(), k2) == (tier_has(s, k2) && k2 != s.last().0),
        forall|k2: Seq<u8>|
            k2 != s.last().0 && tier_has(s, k2) ==> tier_get(s.drop_last(), k2) == tier_get(s, k2),
{
    let r = s.drop_last();
    let lk = s.last().0;
    assert forall|j: int| 0 <= j < r.len() implies r[j] == s[j] by {}
    assert(!tier_has(r, lk)) by {
        if tier_has(r, lk) {
            let j = tier_at(r, lk);
            assert(0 <= j < r.len() && r[j].0 == lk);
            assert(s[j].0 == s[s.len() - 1].0);
        }
    }
    assert forall|k2: Seq<u8>| tier_has(r, k2) == (tier_has(s, k2) && k2 != lk) by {
        if tier_has(r, k2) {
            let j = tier_at(r, k2);
            assert(0 <= j < r.len() && r[j].0 == k2);
            assert(s[j].0 == k2);
            assert(tier_has(s, k2));
            assert(k2 != lk);
        }
        if tier_has(s, k2) && k2 != lk {
            let j = tier_at(s, k2);
            assert(0 <= j < s.len() && s[j].0 == k2);
            assert(j != s.len() - 1);
            assert(r[j].0 == k2);
            assert(tier_has(r, k2));
        }
    }
    assert forall|k2: Seq<u8>| k2 != lk && tier_has(s, k2) implies tier_get(r, k2) == tier_get(
        s,
        k2,
    ) by {
        let j = tier_at(s, k2);
        assert(0 <= j < s.len() && s[j].0 == k2);
        assert(j != s.len() - 1);
        assert(r[j] == s[j]);
        lemma_at_unique(r, k2, j);
    }
}

/// Byte-exact equality of two byte slices.
pub fn bytes_eq(a: &[u8], b: &[u8]) -> (r: bool)
    ensures
        r == (a@ == b@),
{
    if a.len() != b.len() {
        return false;
    }
    let n = a.len();
    let mut i: usize = 0;
    while i < n
        invariant
            n == a@.len(),
            a@.len() == b@.len(),
            0 <= i <= n,
            forall|j: int| 0 <= j < i ==> a@[j] == b@[j],
        decreases n - i,
    {
        if *slice_index_get(a, i) != *slice_index_get(b, i) {
            return false;
        }
        i = i + 1;
    }
    proof {
        assert(a@ =~= b@);
    }
    true
}

/// Copy a byte vector.
pub fn clone_bytes(v: &Vec<u8>) -> (r: Vec<u8>)
    ensures
        r@ == v@,
{
    slice_to_vec(v.as_slice())
}

/// The key-value view of a vector of hash-keyed entries.
pub open spec fn kv_view(s: Seq<(CryptoHash, Vec<u8>)>) -> Seq<(Seq<u8>, Seq<u8>)> {
    s.map_values(|e: (CryptoHash, Vec<u8>)| (e.0@, e.1@))
}

/// Index of the entry keyed by `hash`, if any.
pub fn kv_find(v: &Vec<(CryptoHash, Vec<u8>)>, hash: &CryptoHash) -> (r: Option<usize>)
    ensures
        match r {
            Some(i) => i < v@.len() && kv_view(v@)[i as int].0 == hash@ && tier_has(
                kv_view(v@),
                hash@,
            ),
            None => !tier_has(kv_view(v@), hash@),
        },
{
    let n = v.len();
    let mut i: usize = 0;
    while i < n
        invariant
            n == v@.len(),
            0 <= i <= n,
            forall|j: int| 0 <= j < i ==> kv_view(v@)[j].0 != hash@,
        decreases n - i,
    {
        if bytes_eq(v[i].0.0.as_slice(), hash.0.as_slice()) {
            proof {
                assert(kv_view(v@)[i as int].0 == hash@);
            }
            return Some(i);
        }
        i = i + 1;
    }
    proof {
        if tier_has(kv_view(v@), hash@) {
            let j = tier_at(kv_view(v@), hash@);
            assert(0 <= j < kv_view(v@).len() && kv_view(v@)[j].0 == hash@);
        }
    }
    None
}

/// Look the value for `hash` up, handing out a copy.
pub fn kv_get(v: &Vec<(CryptoHash, Vec<u8>)>, hash: &CryptoHash) -> (r: Option<Vec<u8>>)
    requires
        tier_distinct(kv_view(v@)),
    ensures
        tier_has(kv_view(v@), hash@) ==> (r matches Some(b) && b@ == tier_get(kv_view(v@), hash@)),
        !tier_has(kv_view(v@), hash@) ==> r is None,
{
    match kv_find(v, hash) {
        Some(i) => {
            proof {
                lemma_at_unique(kv_view(v@), hash@, i as int);
            }
            Some(clone_bytes(&v[i].1))
        },
        None => None,
    }
}

/// Bind `hash` to `value`, replacing any entry already keyed by it.
pub fn kv_insert(v: &mut Vec<(CryptoHash, Vec<u8>)>, hash: CryptoHash, value: Vec<u8>)
    requires
        tier_distinct(kv_view(old(v)@)),
    ensures
        kv_view(final(v)@) == tier_remove(kv_view(old(v)@), hash@).push((hash@, value@)),
{
    let ghost s0 = kv_view(v@);
    match kv_find(v, &hash) {
        Some(i) => {
            proof {
                lemma_at_unique(s0, hash@, i as int);
            }
            v.remove(i);
            proof {
                assert(kv_view(v@) =~= tier_remove(s0, hash@));
            }
        },
        None => {
            proof {
                assert(kv_view(v@) =~= tier_remove(s0, hash@));
            }
        },
    }
    let ghost s1 = kv_view(v@);
    v.push((hash, value));
    proof {
        assert(kv_view(v@) =~= s1.push((kv_view(v@).last().0, kv_view(v@).last().1)));
        assert(kv_view(v@) =~= tier_remove(s0, hash@).push((hash@, value@)));
    }
}

/// Take the entry keyed by `hash` out and hand its value back.
pub fn kv_remove(v: &mut Vec<(CryptoHash, Vec<u8>)>, hash: &CryptoHash) -> (r: Option<Vec<u8>>)
    requires
        tier_distinct(kv_view(old(v)@)),
    ensures
        kv_view(final(v)@) == tier_remove(kv_view(old(v)@), hash@),
        tier_has(kv_view(old(v)@), hash@) ==> (r matches Some(b) && b@ == tier_get(
            kv_view(old(v)@),
            hash@,
        )),
        !tier_has(kv_view(old(v)@), hash@) ==> (r is None && final(v)@ == old(v)@),
{
    let ghost s0 = kv_view(v@);
    match kv_find(v, hash) {
        Some(i) => {
            proof {
                lemma_at_unique(s0, hash@, i as int);
            }
            let entry = v.remove(i);
            proof {
                assert(kv_view(v@) =~= tier_remove(s0, hash@));
            }
            Some(entry.1)
        },
        None => None,
    }
}

} // verus!
