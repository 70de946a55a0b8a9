//! The capability a type needs to serve as a key: a deterministic hash code and
//! an equality test, both stated over the key's view.

use std::collections::hash_map::DefaultHasher;
use std::hash::Hasher;
use vstd::prelude::*;
use vstd::std_specs::hash::DefaultHasherAdditionalSpecFns;

verus! {

/// A type that can key a hash table.
///
/// Two keys are the same key exactly when their views are equal, and the hash
/// code is a function of the view alone, so equal keys always hash alike.
pub trait Key: View + Sized {
    /// The hash code of every key whose view is `v`.
    spec fn spec_hash(v: Self::V) -> u64;

    /// Computes the hash code of this key.
    fn hash_code(&self) -> (h: u64)
        ensures
            h == Self::spec_hash(self@),
    ;

    /// Tells whether `self` and `other` are the same key.
    fn same_key(&self, other: &Self) -> (same: bool)
        ensures
            same == (self@ == other@),
    ;
}

/// The digest the standard hasher gives after one write of `bytes`.
pub open spec fn digest(bytes: Seq<u8>) -> u64 {
    DefaultHasher::spec_finish(seq![bytes])
}

/// Feeds `bytes` to a fresh standard hasher and returns its digest.
pub fn hash_bytes(bytes: &[u8]) -> (h: u64)
    ensures
        h == digest(bytes@),
{
    let mut hasher = DefaultHasher::new();
    hasher.write(bytes);
    hasher.finish()
}

impl Key for String {
    open spec fn spec_hash(v: Seq<char>) -> u64 {
        digest(vstd::utf8::encode_utf8(v))
    }

    fn hash_code(&self) -> (h: u64) {
        hash_bytes(self.as_str().as_bytes())
    }

    fn same_key(&self, other: &Self) -> (same: bool) {
        self.eq(other)
    }
}

impl Key for u64 {
    open spec fn spec_hash(v: u64) -> u64 {
        digest(vstd::bytes::spec_u64_to_le_bytes(v))
    }

    fn hash_code(&self) -> (h: u64) {
        let bytes = vstd::bytes::u64_to_le_bytes(*self);
        hash_bytes(bytes.as_slice())
    }

    fn same_key(&self, other: &Self) -> (same: bool) {
        *self == *other
    }
}

} // verus!
