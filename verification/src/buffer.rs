//! Little-endian integers in byte strings. They are appended by `bytes::BufMut`, whose
//! buffers hold at most `isize::MAX` bytes.

use bytes::BufMut;
use vstd::prelude::*;

verus! {

/// The little-endian form of a 16-bit integer.
pub open spec fn le_u16(n: u16) -> Seq<u8> {
    seq![(n % 256) as u8, (n / 256) as u8]
}

/// The little-endian form of a 32-bit integer.
pub open spec fn le_u32(n: u32) -> Seq<u8> {
    seq![
        (n % 256) as u8,
        (n / 256 % 256) as u8,
        (n / 65536 % 256) as u8,
        (n / 16777216) as u8,
    ]
}

/// The 16-bit integer whose little-endian form stands at `at`.
pub open spec fn u16_at(bytes: Seq<u8>, at: int) -> u16 {
    (bytes[at] + 256 * bytes[at + 1]) as u16
}

/// The 32-bit integer whose little-endian form stands at `at`.
pub open spec fn u32_at(bytes: Seq<u8>, at: int) -> u32 {
    (bytes[at] + 256 * bytes[at + 1] + 65536 * bytes[at + 2] + 16777216 * bytes[at + 3]) as u32
}

/// `BufMut::put_u8`: appends one byte.
#[verifier::external_body]
pub(crate) fn put_u8(buffer: &mut Vec<u8>, n: u8)
    requires
        old(buffer)@.len() + 1 <= isize::MAX,
    ensures
        final(buffer)@ == old(buffer)@.push(n),
{
    buffer.put_u8(n)
}

/// `BufMut::put_u16_le`: appends the little-endian form of `n`.
#[verifier::external_body]
pub(crate) fn put_u16_le(buffer: &mut Vec<u8>, n: u16)
    requires
        old(buffer)@.len() + 2 <= isize::MAX,
    ensures
        final(buffer)@ == old(buffer)@ + le_u16(n),
{
    buffer.put_u16_le(n)
}

/// `BufMut::put_u32_le`: appends the little-endian form of `n`.
#[verifier::external_body]
pub(crate) fn put_u32_le(buffer: &mut Vec<u8>, n: u32)
    requires
        old(buffer)@.len() + 4 <= isize::MAX,
    ensures
        final(buffer)@ == old(buffer)@ + le_u32(n),
{
    buffer.put_u32_le(n)
}

/// `BufMut::put_slice`: appends `bytes`.
#[verifier::external_body]
pub(crate) fn put_slice(buffer: &mut Vec<u8>, bytes: &[u8])
    requires
        old(buffer)@.len() + bytes@.len() <= isize::MAX,
    ensures
        final(buffer)@ == old(buffer)@ + bytes@,
{
    buffer.put_slice(bytes)
}

/// Reads the 16-bit integer at `at`.
pub fn read_u16_le(bytes: &[u8], at: usize) -> (n: u16)
    requires
        at + 2 <= bytes@.len(),
    ensures
        n == u16_at(bytes@, at as int),
{
    bytes[at] as u16 + bytes[at + 1] as u16 * 256
}

/// Reads the 32-bit integer at `at`.
pub fn read_u32_le(bytes: &[u8], at: usize) -> (n: u32)
    requires
        at + 4 <= bytes@.len(),
    ensures
        n == u32_at(bytes@, at as int),
{
    bytes[at] as u32 + bytes[at + 1] as u32 * 256 + bytes[at + 2] as u32 * 65536 + bytes[at
        + 3] as u32 * 16777216
}

/// An integer is read back from its little-endian form.
pub proof fn little_endian_round_trip(short: u16, long: u32)
    ensures
        le_u16(short).len() == 2,
        u16_at(le_u16(short), 0) == short,
        le_u32(long).len() == 4,
        u32_at(le_u32(long), 0) == long,
{
}

/// A 16-bit integer is read from two bytes and a 32-bit one from four, the lowest first.
pub proof fn integers_are_read_lowest_byte_first(bytes: Seq<u8>, at: int)
    ensures
        u16_at(bytes, at) == bytes[at] + bytes[at + 1] * 0x100,
        u32_at(bytes, at) == bytes[at] + bytes[at + 1] * 0x100 + bytes[at + 2] * 0x1_0000
            + bytes[at + 3] * 0x100_0000,
{
}

/// An integer is written in two or in four bytes, the lowest first.
pub proof fn integers_are_written_lowest_byte_first(short: u16, long: u32)
    ensures
        le_u16(short).len() == 2,
        short == le_u16(short)[0] + le_u16(short)[1] * 0x100,
        le_u32(long).len() == 4,
        long == le_u32(long)[0] + le_u32(long)[1] * 0x100 + le_u32(long)[2] * 0x1_0000
            + le_u32(long)[3] * 0x100_0000,
{
}

} // verus!
