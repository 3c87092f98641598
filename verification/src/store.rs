//! An in-memory model of the persistent column store this cache sits on.
//!
//! The real store is an external collaborator: column-partitioned,
//! byte-oriented, and fallible only with an opaque internal error. This
//! type holds the one column the trie reads and can be marked
//! unavailable, so that every outcome of a store query — a value, a
//! confirmed absence, or an internal failure — is a state of the model.

use vstd::prelude::*;
use crate::kvlist::{
    bytes_eq, clone_bytes, lemma_at_unique, opt_bytes, tier_at, tier_distinct, tier_get, tier_has,
    tier_remove,
};

verus! {

/// The columns of the persistent store that this cache touches.
#[derive(Clone, Copy, PartialEq, Eq, Structural, Debug)]
pub enum DBCol {
    ColState,
}

/// The opaque internal error of the persistent store.
#[derive(Clone, Copy, PartialEq, Eq, Structural, Debug)]
pub struct StoreError;

/// Byte-keyed, byte-valued storage for the state column, with a switch
/// that makes every read report the store's internal error.
pub struct Store {
    entries: Vec<(Vec<u8>, Vec<u8>)>,
    unavailable: bool,
}

impl Store {
    /// The key-value pairs the state column holds.
    pub closed spec fn contents(&self) -> Seq<(Seq<u8>, Seq<u8>)> {
        self.entries@.map_values(|e: (Vec<u8>, Vec<u8>)| (e.0@, e.1@))
    }

    /// Whether reads currently fail with the internal error.
    pub closed spec fn is_unavailable(&self) -> bool {
        self.unavailable
    }

    /// Keys in the column are unique.
    pub open spec fn wf(&self) -> bool {
        tier_distinct(self.contents())
    }

    pub fn new() -> (r: Store)
        ensures
            r.contents() == Seq::<(Seq<u8>, Seq<u8>)>::empty(),
            !r.is_unavailable(),
            r.wf(),
    {
        let s = Store { entries: Vec::new(), unavailable: false };
        proof {
            assert(s.contents() =~= Seq::<(Seq<u8>, Seq<u8>)>::empty());
        }
        s
    }

    /// Mark every following read as failing (or not) with the store's
    /// internal error.
    pub fn set_unavailable(&mut self, unavailable: bool)
        ensures
            final(self).contents() == old(self).contents(),
            final(self).is_unavailable() == unavailable,
            old(self).wf() ==> final(self).wf(),
    {
        self.unavailable = unavailable;
    }

    /// Bind `key` to `value` in the given column, replacing any earlier
    /// binding.
    pub fn set(&mut self, _col: DBCol, key: Vec<u8>, value: Vec<u8>)
        requires
            old(self).wf(),
        ensures
            final(self).wf(),
            final(self).contents() == tier_remove(old(self).contents(), key@).push(
                (key@, value@),
            ),
            final(self).is_unavailable() == old(self).is_unavailable(),
    {
        let ghost s0 = self.contents();
        let n = self.entries.len();
        let mut i: usize = 0;
        while i < n
            invariant
                *self == *old(self),
                self.wf(),
                s0 == self.contents(),
                n == self.entries@.len(),
                0 <= i <= n,
                forall|j: int| 0 <= j < i ==> self.contents()[j].0 != key@,
            decreases n - i,
        {
            if bytes_eq(self.entries[i].0.as_slice(), key.as_slice()) {
                proof {
                    assert(self.contents()[i as int].0 == key@);
                    lemma_at_unique(self.contents(), key@, i as int);
                }
                self.entries.remove(i);
                proof {
                    assert(self.contents() =~= tier_remove(s0, key@));
                }
                let ghost kk = key@;
                let ghost vv = value@;
                self.entries.push((key, value));
                proof {
                    crate::kvlist::lemma_remove_effect(s0, kk);
                    assert(self.contents() =~= tier_remove(s0, kk).push((kk, vv)));
                    crate::kvlist::lemma_push_effect(tier_remove(s0, kk), kk, vv);
                }
                return ;
            }
            i = i + 1;
        }
        proof {
            if tier_has(s0, key@) {
                let j = tier_at(s0, key@);
                assert(0 <= j < s0.len() && s0[j].0 == key@);
            }
            assert(!tier_has(s0, key@));
            assert(tier_remove(s0, key@) == s0);
        }
        let ghost kk = key@;
        let ghost vv = value@;
        self.entries.push((key, value));
        proof {
            assert(self.contents() =~= s0.push((kk, vv)));
            crate::kvlist::lemma_push_effect(s0, kk, vv);
        }
    }

    /// Read the value bound to `key`, or report that the store is
    /// unavailable.
    pub fn get(&self, _col: DBCol, key: &[u8]) -> (r: Result<Option<Vec<u8>>, StoreError>)
        requires
            self.wf(),
        ensures
            r is Err <==> self.is_unavailable(),
            r matches Ok(o) ==> opt_bytes(o) == (if tier_has(self.contents(), key@) {
                Some(tier_get(self.contents(), key@))
            } else {
                None::<Seq<u8>>
            }),
    {
        if self.unavailable {
            return Err(StoreError);
        }
        let n = self.entries.len();
        let mut i: usize = 0;
        while i < n
            invariant
                n == self.entries@.len(),
                0 <= i <= n,
                self.wf(),
                !self.is_unavailable(),
                forall|j: int| 0 <= j < i ==> self.contents()[j].0 != key@,
            decreases n - i,
        {
            if bytes_eq(self.entries[i].0.as_slice(), key) {
                proof {
                    assert(self.contents()[i as int].0 == key@);
                    lemma_at_unique(self.contents(), key@, i as int);
                }
                return Ok(Some(clone_bytes(&self.entries[i].1)));
            }
            i = i + 1;
        }
        proof {
            if tier_has(self.contents(), key@) {
                let j = tier_at(self.contents(), key@);
                assert(0 <= j < self.contents().len() && self.contents()[j].0 == key@);
            }
        }
        Ok(None)
    }
}

} // verus!
