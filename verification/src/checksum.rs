//! CRC32C checksums, computed by the `crc32c` crate.

use vstd::prelude::*;

verus! {

/// The CRC32C (Castagnoli) checksum of a byte string.
pub uninterp spec fn crc32c_value(data: Seq<u8>) -> u32;

/// Whether two byte strings differ in the byte at `i`, and in no other.
pub open spec fn apart_at(a: Seq<u8>, b: Seq<u8>, i: int) -> bool {
    &&& a.len() == b.len()
    &&& 0 <= i < a.len()
    &&& a[i] != b[i]
    &&& forall|j: int| 0 <= j < a.len() && j != i ==> #[trigger] a[j] == b[j]
}

/// Whether no two byte strings that differ in a single byte both have this checksum.
pub open spec fn tells_apart(checksum: u32) -> bool {
    forall|a: Seq<u8>, b: Seq<u8>, i: int|
        #![trigger apart_at(a, b, i), crc32c_value(a), crc32c_value(b)]
        apart_at(a, b, i) && crc32c_value(a) == checksum ==> crc32c_value(b) != checksum
}

/// Calls `crc32c::crc32c`. The result is the checksum of `data`, a function of
/// its bytes alone. A single byte that changes always changes the checksum: the polynomial,
/// 0x82F63B78 in reversed bit order, has degree 32 and a constant term, so that the remainder
/// shows every change of up to 32 bits in a row.
#[verifier::external_body]
pub(crate) fn crc32c(data: &[u8]) -> (checksum: u32)
    ensures
        checksum == crc32c_value(data@),
        tells_apart(checksum),
{
    crc32c::crc32c(data)
}

/// What continuing a checksum over a byte string gives.
pub uninterp spec fn crc32c_append_value(checksum: u32, data: Seq<u8>) -> u32;

/// What combining two checksums gives, where the second covers `second_len` bytes.
pub uninterp spec fn crc32c_combine_value(first: u32, second: u32, second_len: usize) -> u32;

/// Calls `crc32c::crc32c_append`, which continues a checksum. The result is a function of
/// its arguments: started from zero it gives the checksum of `data`, and started from the
/// checksum of some bytes it gives the checksum of those bytes followed by `data`. As with
/// `crc32c::crc32c`, a single byte that changes always changes a checksum.
#[verifier::external_body]
pub(crate) fn crc32c_append(checksum: u32, data: &[u8]) -> (extended: u32)
    ensures
        extended == crc32c_append_value(checksum, data@),
        checksum == 0 ==> extended == crc32c_value(data@),
        tells_apart(extended),
        forall|prefix: Seq<u8>|
            checksum == crc32c_value(prefix) ==> extended == #[trigger] crc32c_value(
                prefix + data@,
            ),
{
    crc32c::crc32c_append(checksum, data)
}

/// Calls `crc32c::crc32c_combine`. The result is a function of its arguments: from the
/// checksums of two byte strings and the length of the second it gives the checksum of
/// their concatenation.
#[verifier::external_body]
pub(crate) fn crc32c_combine(first: u32, second: u32, second_len: usize) -> (combined: u32)
    ensures
        combined == crc32c_combine_value(first, second, second_len),
        forall|a: Seq<u8>, b: Seq<u8>|
            first == crc32c_value(a) && second == crc32c_value(b) && second_len == b.len()
                ==> combined == #[trigger] crc32c_value(a + b),
{
    crc32c::crc32c_combine(first, second, second_len)
}

} // verus!
