//! Little-endian integers in byte buffers, read and written by `byteorder`.

use byteorder::{ByteOrder, LittleEndian};
use vstd::prelude::*;

verus! {

/// The four bytes of a number, the least significant byte first.
#[verifier::opaque]
pub open spec fn u32_bytes(n: u32) -> Seq<u8> {
    seq![
        (n % 0x100) as u8,
        (n / 0x100 % 0x100) as u8,
        (n / 0x1_0000 % 0x100) as u8,
        (n / 0x100_0000 % 0x100) as u8,
    ]
}

/// The number that the first four of `bytes` write, the least significant
/// byte first.
#[verifier::opaque]
pub open spec fn u32_value(bytes: Seq<u8>) -> u32 {
    (bytes[0] + bytes[1] * 0x100 + bytes[2] * 0x1_0000 + bytes[3] * 0x100_0000) as u32
}

/// The eight bytes of a number, the least significant byte first.
#[verifier::opaque]
pub open spec fn u64_bytes(n: u64) -> Seq<u8> {
    seq![
        (n % 0x100) as u8,
        (n / 0x100 % 0x100) as u8,
        (n / 0x1_0000 % 0x100) as u8,
        (n / 0x100_0000 % 0x100) as u8,
        (n / 0x1_0000_0000 % 0x100) as u8,
        (n / 0x100_0000_0000 % 0x100) as u8,
        (n / 0x1_0000_0000_0000 % 0x100) as u8,
        (n / 0x100_0000_0000_0000 % 0x100) as u8,
    ]
}

/// The number that the first eight of `bytes` write, the least significant
/// byte first.
#[verifier::opaque]
pub open spec fn u64_value(bytes: Seq<u8>) -> u64 {
    (bytes[0] + bytes[1] * 0x100 + bytes[2] * 0x1_0000 + bytes[3] * 0x100_0000 + bytes[4]
        * 0x1_0000_0000 + bytes[5] * 0x100_0000_0000 + bytes[6] * 0x1_0000_0000_0000 + bytes[7]
        * 0x100_0000_0000_0000) as u64
}

/// The four bytes of a number write that number.
pub proof fn lemma_u32_value(n: u32)
    ensures
        u32_bytes(n).len() == 4,
        u32_value(u32_bytes(n)) == n,
{
    reveal(u32_bytes);
    reveal(u32_value);
    assert(n == n % 0x100 + (n / 0x100 % 0x100) * 0x100 + (n / 0x1_0000 % 0x100) * 0x1_0000 + (n
        / 0x100_0000 % 0x100) * 0x100_0000) by (bit_vector);
}

/// The number that four bytes write has those four bytes.
pub proof fn lemma_u32_bytes(bytes: Seq<u8>)
    requires
        bytes.len() == 4,
    ensures
        u32_bytes(u32_value(bytes)) == bytes,
{
    reveal(u32_bytes);
    reveal(u32_value);
    let (a, b, c, d) = (bytes[0], bytes[1], bytes[2], bytes[3]);
    let n: u32 = u32_value(bytes);
    assert(n == a + b * 0x100 + c * 0x1_0000 + d * 0x100_0000);
    assert(n % 0x100 == a && n / 0x100 % 0x100 == b && n / 0x1_0000 % 0x100 == c && n
        / 0x100_0000 % 0x100 == d) by (bit_vector)
        requires
            n == a as u32 + (b as u32) * 0x100 + (c as u32) * 0x1_0000 + (d as u32) * 0x100_0000,
    ;
    assert(u32_bytes(n) =~= bytes);
}

/// The eight bytes of a number write that number.
pub proof fn lemma_u64_value(n: u64)
    ensures
        u64_bytes(n).len() == 8,
        u64_value(u64_bytes(n)) == n,
{
    reveal(u64_bytes);
    reveal(u64_value);
    assert(n == n % 0x100 + (n / 0x100 % 0x100) * 0x100 + (n / 0x1_0000 % 0x100) * 0x1_0000 + (n
        / 0x100_0000 % 0x100) * 0x100_0000 + (n / 0x1_0000_0000 % 0x100) * 0x1_0000_0000 + (n
        / 0x100_0000_0000 % 0x100) * 0x100_0000_0000 + (n / 0x1_0000_0000_0000 % 0x100)
        * 0x1_0000_0000_0000 + (n / 0x100_0000_0000_0000 % 0x100) * 0x100_0000_0000_0000)
        by (bit_vector);
}

/// Only the first four bytes count for the number that bytes write.
pub proof fn lemma_u32_value_front(bytes: Seq<u8>, other: Seq<u8>)
    requires
        bytes.len() >= 4,
        other.len() >= 4,
        bytes.take(4) == other.take(4),
    ensures
        u32_value(bytes) == u32_value(other),
{
    reveal(u32_value);
    assert(bytes[0] == bytes.take(4)[0] && bytes[1] == bytes.take(4)[1] && bytes[2] == bytes.take(
        4,
    )[2] && bytes[3] == bytes.take(4)[3]);
    assert(other[0] == other.take(4)[0] && other[1] == other.take(4)[1] && other[2] == other.take(
        4,
    )[2] && other[3] == other.take(4)[3]);
}

/// Only the first eight bytes count for the number that bytes write.
pub proof fn lemma_u64_value_front(bytes: Seq<u8>, other: Seq<u8>)
    requires
        bytes.len() >= 8,
        other.len() >= 8,
        bytes.take(8) == other.take(8),
    ensures
        u64_value(bytes) == u64_value(other),
{
    reveal(u64_value);
    let (a, b) = (bytes.take(8), other.take(8));
    assert(bytes[0] == a[0] && bytes[1] == a[1] && bytes[2] == a[2] && bytes[3] == a[3]
        && bytes[4] == a[4] && bytes[5] == a[5] && bytes[6] == a[6] && bytes[7] == a[7]);
    assert(other[0] == b[0] && other[1] == b[1] && other[2] == b[2] && other[3] == b[3]
        && other[4] == b[4] && other[5] == b[5] && other[6] == b[6] && other[7] == b[7]);
}

/// `byteorder::LittleEndian::read_u32`: the first four bytes of `buf`, least
/// significant byte first. Trusted; the outside function panics on a shorter buffer.
#[verifier::external_body]
pub(crate) fn read_u32(buf: &[u8]) -> (n: u32)
    requires
        buf@.len() >= 4,
    ensures
        n == u32_value(buf@),
{
    LittleEndian::read_u32(buf)
}

/// `byteorder::LittleEndian::read_u64`: the first eight bytes of `buf`, least
/// significant byte first. Trusted; the outside function panics on a shorter buffer.
#[verifier::external_body]
pub(crate) fn read_u64(buf: &[u8]) -> (n: u64)
    requires
        buf@.len() >= 8,
    ensures
        n == u64_value(buf@),
{
    LittleEndian::read_u64(buf)
}

/// `byteorder::LittleEndian::write_u32` on the part of `buf` that starts at `at`:
/// four bytes are overwritten with `n`, least significant byte first, and nothing
/// else changes. Trusted; the outside function panics when fewer than four bytes
/// follow `at`.
#[verifier::external_body]
pub(crate) fn write_u32(buf: &mut Vec<u8>, at: usize, n: u32)
    requires
        at + 4 <= old(buf)@.len(),
    ensures
        final(buf)@ == old(buf)@.subrange(0, at as int) + u32_bytes(n) + old(buf)@.subrange(
            at + 4,
            old(buf)@.len() as int,
        ),
{
    LittleEndian::write_u32(&mut buf[at..], n)
}

/// `byteorder::LittleEndian::write_u64` on the part of `buf` that starts at `at`:
/// eight bytes are overwritten with `n`, least significant byte first, and nothing
/// else changes. Trusted; the outside function panics when fewer than eight bytes
/// follow `at`.
#[verifier::external_body]
pub(crate) fn write_u64(buf: &mut Vec<u8>, at: usize, n: u64)
    requires
        at + 8 <= old(buf)@.len(),
    ensures
        final(buf)@ == old(buf)@.subrange(0, at as int) + u64_bytes(n) + old(buf)@.subrange(
            at + 8,
            old(buf)@.len() as int,
        ),
{
    LittleEndian::write_u64(&mut buf[at..], n)
}

} // verus!
