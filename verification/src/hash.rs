//! Key hashes, computed by the `xxhash-rust` crate.

use vstd::prelude::*;

verus! {

/// The XXH3 64-bit hash of a byte string, with the default secret and seed.
pub uninterp spec fn xxh3_64_value(data: Seq<u8>) -> u64;

/// Calls `xxhash_rust::xxh3::xxh3_64`. The result is a function of the bytes of
/// `data` alone.
#[verifier::external_body]
pub(crate) fn xxh3_64(data: &[u8]) -> (hash: u64)
    ensures
        hash == xxh3_64_value(data@),
{
    xxhash_rust::xxh3::xxh3_64(data)
}

/// The key fingerprint stored in a Base slot: the upper half of the key's hash.
pub open spec fn fingerprint(hash: u64) -> u32 {
    (hash / 0x1_0000_0000) as u32
}

} // verus!
