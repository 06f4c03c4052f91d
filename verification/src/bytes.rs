//! Little-endian integers inside byte strings, and the few byte-string
//! operations that the rest of the crate is written with.

use vstd::prelude::*;

verus! {

/// The unsigned 32-bit integer stored little-endian at `at`.
#[verifier::opaque]
pub open spec fn le_u32(s: Seq<u8>, at: int) -> u32 {
    (s[at] + 0x100 * s[at + 1] + 0x1_0000 * s[at + 2] + 0x100_0000 * s[at + 3]) as u32
}

/// The unsigned 64-bit integer stored little-endian at `at`.
#[verifier::opaque]
pub open spec fn le_u64(s: Seq<u8>, at: int) -> u64 {
    (le_u32(s, at) + 0x1_0000_0000 * le_u32(s, at + 4)) as u64
}

/// The four little-endian bytes of `x`.
#[verifier::opaque]
pub open spec fn u32_bytes(x: u32) -> Seq<u8> {
    seq![
        (x % 0x100) as u8,
        (x / 0x100 % 0x100) as u8,
        (x / 0x1_0000 % 0x100) as u8,
        (x / 0x100_0000) as u8,
    ]
}

/// The eight little-endian bytes of `x`.
#[verifier::opaque]
pub open spec fn u64_bytes(x: u64) -> Seq<u8> {
    u32_bytes((x % 0x1_0000_0000) as u32) + u32_bytes((x / 0x1_0000_0000) as u32)
}

/// Encoded integers have a fixed width.
pub broadcast proof fn lemma_u32_bytes_len(x: u32)
    ensures
        #[trigger] u32_bytes(x).len() == 4,
{
    reveal(u32_bytes);
}

/// Encoded integers have a fixed width.
pub broadcast proof fn lemma_u64_bytes_len(x: u64)
    ensures
        #[trigger] u64_bytes(x).len() == 8,
{
    reveal(u64_bytes);
    reveal(u32_bytes);
}

/// Decoding depends on the four bytes at the position alone.
pub proof fn lemma_le_u32_same(s: Seq<u8>, at: int, t: Seq<u8>, bt: int)
    requires
        0 <= at,
        at + 4 <= s.len(),
        0 <= bt,
        bt + 4 <= t.len(),
        s.subrange(at, at + 4) == t.subrange(bt, bt + 4),
    ensures
        le_u32(s, at) == le_u32(t, bt),
{
    reveal(le_u32);
    let a = s.subrange(at, at + 4);
    let b = t.subrange(bt, bt + 4);
    assert(a[0] == s[at] && a[1] == s[at + 1] && a[2] == s[at + 2] && a[3] == s[at + 3]);
    assert(b[0] == t[bt] && b[1] == t[bt + 1] && b[2] == t[bt + 2] && b[3] == t[bt + 3]);
}

/// Decoding depends on the eight bytes at the position alone.
pub proof fn lemma_le_u64_same(s: Seq<u8>, at: int, t: Seq<u8>, bt: int)
    requires
        0 <= at,
        at + 8 <= s.len(),
        0 <= bt,
        bt + 8 <= t.len(),
        s.subrange(at, at + 8) == t.subrange(bt, bt + 8),
    ensures
        le_u64(s, at) == le_u64(t, bt),
{
    reveal(le_u64);
    let a = s.subrange(at, at + 8);
    let b = t.subrange(bt, bt + 8);
    assert(a.subrange(0, 4) =~= s.subrange(at, at + 4));
    assert(b.subrange(0, 4) =~= t.subrange(bt, bt + 4));
    assert(a.subrange(4, 8) =~= s.subrange(at + 4, at + 8));
    assert(b.subrange(4, 8) =~= t.subrange(bt + 4, bt + 8));
    lemma_le_u32_same(s, at, t, bt);
    lemma_le_u32_same(s, at + 4, t, bt + 4);
}

/// A 32-bit integer is read back from its own encoding.
pub proof fn lemma_le_u32_of_bytes(s: Seq<u8>, at: int, x: u32)
    requires
        0 <= at,
        at + 4 <= s.len(),
        s.subrange(at, at + 4) == u32_bytes(x),
    ensures
        le_u32(s, at) == x,
{
    reveal(le_u32);
    reveal(u32_bytes);
    let a = s.subrange(at, at + 4);
    assert(a[0] == s[at] && a[1] == s[at + 1] && a[2] == s[at + 2] && a[3] == s[at + 3]);
}

/// Decoding shows a change of a single byte.
pub proof fn lemma_le_u32_differs(s: Seq<u8>, t: Seq<u8>, at: int, i: int)
    requires
        0 <= at <= i < at + 4,
        at + 4 <= s.len(),
        s.len() == t.len(),
        s[i] != t[i],
        forall|j: int| at <= j < at + 4 && j != i ==> #[trigger] s[j] == t[j],
    ensures
        le_u32(s, at) != le_u32(t, at),
{
    reveal(le_u32);
}

/// A 64-bit integer is read back from its own encoding.
pub proof fn lemma_le_u64_of_bytes(s: Seq<u8>, at: int, x: u64)
    requires
        0 <= at,
        at + 8 <= s.len(),
        s.subrange(at, at + 8) == u64_bytes(x),
    ensures
        le_u64(s, at) == x,
{
    broadcast use lemma_u32_bytes_len;

    reveal(le_u64);
    reveal(u64_bytes);
    let a = s.subrange(at, at + 8);
    assert(s.subrange(at, at + 4) =~= u32_bytes((x % 0x1_0000_0000) as u32)) by {
        assert(a.subrange(0, 4) =~= s.subrange(at, at + 4));
        assert(a.subrange(0, 4) =~= u32_bytes((x % 0x1_0000_0000) as u32));
    }
    assert(s.subrange(at + 4, at + 8) =~= u32_bytes((x / 0x1_0000_0000) as u32)) by {
        assert(a.subrange(4, 8) =~= s.subrange(at + 4, at + 8));
        assert(a.subrange(4, 8) =~= u32_bytes((x / 0x1_0000_0000) as u32));
    }
    lemma_le_u32_of_bytes(s, at, (x % 0x1_0000_0000) as u32);
    lemma_le_u32_of_bytes(s, at + 4, (x / 0x1_0000_0000) as u32);
}

/// Reads the little-endian `u32` at `offset`.
pub fn u32_at(bytes: &[u8], offset: usize) -> (value: u32)
    requires
        offset + 4 <= bytes@.len(),
    ensures
        value == le_u32(bytes@, offset as int),
{
    reveal(le_u32);
    let b0: u32 = bytes[offset] as u32;
    let b1: u32 = bytes[offset + 1] as u32;
    let b2: u32 = bytes[offset + 2] as u32;
    let b3: u32 = bytes[offset + 3] as u32;
    b0 + 0x100 * b1 + 0x1_0000 * b2 + 0x100_0000 * b3
}

/// Reads the little-endian `u64` at `offset`.
pub fn u64_at(bytes: &[u8], offset: usize) -> (value: u64)
    requires
        offset + 8 <= bytes@.len(),
    ensures
        value == le_u64(bytes@, offset as int),
{
    reveal(le_u64);
    assert(bytes@.len() == bytes.len());
    let low: u64 = u32_at(bytes, offset) as u64;
    let high: u64 = u32_at(bytes, offset + 4) as u64;
    low + 0x1_0000_0000 * high
}

/// Appends every byte of `tail`.
pub fn push_bytes(out: &mut Vec<u8>, tail: &[u8])
    ensures
        final(out)@ == old(out)@ + tail@,
{
    out.extend_from_slice(tail);
    assert(out@ =~= old(out)@ + tail@);
}

/// Appends one byte.
pub fn push_u8(out: &mut Vec<u8>, value: u8)
    ensures
        final(out)@ == old(out)@ + seq![value],
{
    out.push(value);
    assert(out@ =~= old(out)@ + seq![value]);
}

/// Appends the little-endian encoding of `value`.
pub fn push_u32(out: &mut Vec<u8>, value: u32)
    ensures
        final(out)@ == old(out)@ + u32_bytes(value),
{
    reveal(u32_bytes);
    out.push((value % 0x100) as u8);
    out.push((value / 0x100 % 0x100) as u8);
    out.push((value / 0x1_0000 % 0x100) as u8);
    out.push((value / 0x100_0000) as u8);
    assert(out@ =~= old(out)@ + u32_bytes(value));
}

/// Appends the little-endian encoding of `value`.
pub fn push_u64(out: &mut Vec<u8>, value: u64)
    ensures
        final(out)@ == old(out)@ + u64_bytes(value),
{
    reveal(u64_bytes);
    push_u32(out, (value % 0x1_0000_0000) as u32);
    push_u32(out, (value / 0x1_0000_0000) as u32);
    assert(out@ =~= old(out)@ + u64_bytes(value));
}

/// Copies a byte string.
pub fn copy_bytes(bytes: &[u8]) -> (copy: Vec<u8>)
    ensures
        copy@ == bytes@,
{
    let mut copy: Vec<u8> = Vec::new();
    push_bytes(&mut copy, bytes);
    assert(copy@ =~= bytes@);
    copy
}

/// The bytes with a part overwritten from `at` on.
pub open spec fn overwritten(bytes: Seq<u8>, at: int, part: Seq<u8>) -> Seq<u8> {
    Seq::new(
        bytes.len(),
        |i: int|
            if at <= i < at + part.len() {
                part[i - at]
            } else {
                bytes[i]
            },
    )
}

/// Copies `part` over the bytes from `at` on.
pub fn copy_into(target: &mut [u8], at: usize, part: &[u8])
    requires
        at + part@.len() <= old(target)@.len(),
    ensures
        final(target)@ == overwritten(old(target)@, at as int, part@),
{
    let ghost before = target@;
    assert(before.len() == target.len());
    let mut i: usize = 0;
    while i < part.len()
        invariant
            i <= part@.len(),
            target@.len() == before.len(),
            at + part@.len() <= before.len(),
            before.len() <= usize::MAX,
            forall|j: int|
                0 <= j < before.len() ==> #[trigger] target@[j] == (if at <= j < at + i {
                    part@[j - at]
                } else {
                    before[j]
                }),
        decreases part@.len() - i,
    {
        target[at + i] = part[i];
        i += 1;
    }
    assert(target@ =~= overwritten(before, at as int, part@));
}

/// Whether two byte strings are the same.
pub fn same_bytes(left: &[u8], right: &[u8]) -> (same: bool)
    ensures
        same == (left@ == right@),
{
    if left.len() != right.len() {
        return false;
    }
    let mut i: usize = 0;
    while i < left.len()
        invariant
            i <= left@.len(),
            left@.len() == right@.len(),
            forall|j: int| 0 <= j < i ==> left@[j] == right@[j],
        decreases left@.len() - i,
    {
        if left[i] != right[i] {
            return false;
        }
        i += 1;
    }
    assert(left@ =~= right@);
    true
}

/// The quotient rounded up.
pub open spec fn ceil_div(n: int, d: int) -> int {
    (n + d - 1) / d
}

} // verus!
