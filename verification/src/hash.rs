//! The hash that program code and symbol names are identified by.

use hash32::{Hasher as Hash32Hasher, Murmur3Hasher};
use std::hash::Hasher;
use vstd::prelude::*;

verus! {

/// What `hash32::Murmur3Hasher` gives for bytes that are written to it at once.
pub uninterp spec fn murmur3(bytes: Seq<u8>) -> u32;

/// Hashes bytes with a new `hash32::Murmur3Hasher`: one `write` of all of them,
/// then `finish32`. The result depends on the bytes alone.
#[verifier::external_body]
pub(crate) fn murmur3_hash(bytes: &[u8]) -> (hash: u32)
    ensures
        hash == murmur3(bytes@),
{
    let mut hasher = Murmur3Hasher::default();
    hasher.write(bytes);
    hasher.finish32()
}

/// The key that a name stands for.
pub fn hash_symbol_name(name: &[u8]) -> (key: u32)
    ensures
        key == murmur3(name@),
{
    murmur3_hash(name)
}

} // verus!
