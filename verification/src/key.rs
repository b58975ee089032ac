//! The keyed 64-bit hasher that every container in this crate routes keys
//! through, packaged as a trait so that key types stay pluggable.

use vstd::prelude::*;

verus! {

use vstd::bytes::spec_u64_to_le_bytes;
use vstd::bytes::u64_to_le_bytes;

/// What `seahash::hash_seeded` returns on a byte string and a seed: a keyed
/// 64-bit digest that is a function of those two arguments alone.
pub uninterp spec fn sea_hash(bytes: Seq<u8>, seed: u64) -> u64;

/// Relies on `seahash::hash_seeded`: a deterministic keyed digest of the
/// given bytes, depending on the bytes and the seed alone.
#[verifier::external_body]
fn hash_seeded(bytes: &[u8], seed: u64) -> (h: u64)
    ensures
        h == sea_hash(bytes@, seed),
{
    seahash::hash_seeded(bytes, seed, 0, 0, 0)
}

/// A key the containers of this crate can compare and hash.
///
/// `key_eq` decides equality of the keys' abstract values, and `key_hash`
/// computes the keyed digest that `hash_spec` names, so that hashing the
/// same key under the same seed always lands in the same place.
pub trait MapKey: View + Sized {
    /// The 64-bit keyed hash of the key's abstract value under `seed`.
    spec fn hash_spec(key: Self::V, seed: u64) -> u64;

    /// Decide whether the two keys have the same abstract value.
    fn key_eq(&self, other: &Self) -> (r: bool)
        ensures
            r == (self@ == other@);

    /// Hash the key under the given seed.
    fn key_hash(&self, seed: u64) -> (h: u64)
        ensures
            h == Self::hash_spec(self@, seed);

    /// Clone the key, keeping its abstract value.
    fn key_clone(&self) -> (r: Self)
        ensures
            r@ == self@;
}

impl MapKey for u64 {
    open spec fn hash_spec(key: u64, seed: u64) -> u64 {
        sea_hash(spec_u64_to_le_bytes(key), seed)
    }

    fn key_eq(&self, other: &u64) -> (r: bool) {
        *self == *other
    }

    fn key_hash(&self, seed: u64) -> (h: u64) {
        let bytes = u64_to_le_bytes(*self);
        hash_seeded(bytes.as_slice(), seed)
    }

    fn key_clone(&self) -> (r: u64) {
        *self
    }
}

impl MapKey for u32 {
    open spec fn hash_spec(key: u32, seed: u64) -> u64 {
        sea_hash(spec_u64_to_le_bytes(key as u64), seed)
    }

    fn key_eq(&self, other: &u32) -> (r: bool) {
        *self == *other
    }

    fn key_hash(&self, seed: u64) -> (h: u64) {
        let bytes = u64_to_le_bytes(*self as u64);
        hash_seeded(bytes.as_slice(), seed)
    }

    fn key_clone(&self) -> (r: u32) {
        *self
    }
}

impl MapKey for usize {
    open spec fn hash_spec(key: usize, seed: u64) -> u64 {
        sea_hash(spec_u64_to_le_bytes(key as u64), seed)
    }

    fn key_eq(&self, other: &usize) -> (r: bool) {
        *self == *other
    }

    fn key_hash(&self, seed: u64) -> (h: u64) {
        let bytes = u64_to_le_bytes(*self as u64);
        hash_seeded(bytes.as_slice(), seed)
    }

    fn key_clone(&self) -> (r: usize) {
        *self
    }
}

impl MapKey for i32 {
    open spec fn hash_spec(key: i32, seed: u64) -> u64 {
        sea_hash(spec_u64_to_le_bytes(((key as int) + 0x8000_0000) as u64), seed)
    }

    fn key_eq(&self, other: &i32) -> (r: bool) {
        *self == *other
    }

    fn key_hash(&self, seed: u64) -> (h: u64) {
        let offset: u64 = (((*self as i64) + 0x8000_0000) as u64);
        let bytes = u64_to_le_bytes(offset);
        hash_seeded(bytes.as_slice(), seed)
    }

    fn key_clone(&self) -> (r: i32) {
        *self
    }
}

impl MapKey for String {
    open spec fn hash_spec(key: Seq<char>, seed: u64) -> u64 {
        sea_hash(vstd::utf8::encode_utf8(key), seed)
    }

    fn key_eq(&self, other: &String) -> (r: bool) {
        *self == *other
    }

    fn key_hash(&self, seed: u64) -> (h: u64) {
        hash_seeded(self.as_str().as_bytes(), seed)
    }

    fn key_clone(&self) -> (r: String) {
        self.clone()
    }
}

} // verus!
