//! Little-endian 32-bit integers, as the record header stores them.

use byteorder::{ByteOrder, LittleEndian};
use vstd::prelude::*;

verus! {

/// The unsigned integer that four bytes hold in little-endian order.
pub open spec fn le_u32(b: Seq<u8>) -> u32
    recommends
        b.len() == 4,
{
    (b[0] as int + b[1] as int * 0x100 + b[2] as int * 0x1_0000 + b[3] as int * 0x100_0000) as u32
}

/// The four bytes that hold `n` in little-endian order.
pub open spec fn le_bytes(n: u32) -> Seq<u8> {
    seq![
        (n as int % 0x100) as u8,
        (n as int / 0x100 % 0x100) as u8,
        (n as int / 0x1_0000 % 0x100) as u8,
        (n as int / 0x100_0000) as u8,
    ]
}

/// Reading back the bytes of `n` gives `n`.
pub proof fn lemma_le_round_trip(n: u32)
    ensures
        le_bytes(n).len() == 4,
        le_u32(le_bytes(n)) == n,
{
}

/// Four bytes are the little-endian bytes of the integer they hold.
pub proof fn lemma_le_bytes_of_value(b: Seq<u8>)
    requires
        b.len() == 4,
    ensures
        le_bytes(le_u32(b)) == b,
{
}

/// Calls `byteorder::LittleEndian::read_u32`, which reads the first four
/// bytes of `buf` as a little-endian integer and panics on a shorter buffer.
/// That the result is the integer those bytes hold is taken on trust.
#[verifier::external_body]
pub(crate) fn read_u32_le(buf: &[u8]) -> (n: u32)
    requires
        buf@.len() >= 4,
    ensures
        n == le_u32(buf@.subrange(0, 4)),
{
    LittleEndian::read_u32(buf)
}

/// Calls `byteorder::LittleEndian::write_u32` on a fresh buffer of four
/// bytes, which it fills with `n` in little-endian order. That the buffer
/// then holds the bytes of `n` is taken on trust.
#[verifier::external_body]
pub(crate) fn write_u32_le(n: u32) -> (buf: [u8; 4])
    ensures
        buf@ == le_bytes(n),
{
    let mut buf: [u8; 4] = [0; 4];
    LittleEndian::write_u32(&mut buf, n);
    buf
}

} // verus!
