use std::hash::DefaultHasher;
use std::hash::Hasher;
use vstd::prelude::*;
use vstd::std_specs::hash::DefaultHasherAdditionalSpecFns;

verus! {

/// A key that the cache can store: it is compared by value and hashed
/// through a fixed byte encoding.
pub trait CacheKey: Copy + Sized {
    /// The bytes that are fed to the hasher.
    spec fn key_bytes_spec(&self) -> Seq<u8>;

    fn key_bytes(&self) -> (r: Vec<u8>)
        ensures
            r@ == self.key_bytes_spec(),
    ;

    fn same_key(&self, other: &Self) -> (r: bool)
        ensures
            r == (*self == *other),
    ;
}

impl CacheKey for u32 {
    open spec fn key_bytes_spec(&self) -> Seq<u8> {
        vstd::bytes::spec_u32_to_le_bytes(*self)
    }

    fn key_bytes(&self) -> (r: Vec<u8>) {
        vstd::bytes::u32_to_le_bytes(*self)
    }

    fn same_key(&self, other: &Self) -> (r: bool) {
        *self == *other
    }
}

impl CacheKey for u64 {
    open spec fn key_bytes_spec(&self) -> Seq<u8> {
        vstd::bytes::spec_u64_to_le_bytes(*self)
    }

    fn key_bytes(&self) -> (r: Vec<u8>) {
        vstd::bytes::u64_to_le_bytes(*self)
    }

    fn same_key(&self, other: &Self) -> (r: bool) {
        *self == *other
    }
}

/// The hash under which a key is indexed: `DefaultHasher` over its bytes.
pub open spec fn hash_of<K: CacheKey>(key: K) -> u64 {
    DefaultHasher::spec_finish(seq![key.key_bytes_spec()])
}

/// Derives the hash of a key.
pub fn key_to_hash<K: CacheKey>(key: &K) -> (r: u64)
    ensures
        r == hash_of(*key),
{
    let bytes = key.key_bytes();
    let mut hasher = DefaultHasher::new();
    hasher.write(bytes.as_slice());
    hasher.finish()
}

} // verus!
