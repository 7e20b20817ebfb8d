//! Little-endian 32-bit integers in byte buffers.
use vstd::prelude::*;
use byteorder::{ByteOrder, LittleEndian};

verus! {

/// The value of the first four bytes of `b`, least significant first.
pub open spec fn le_value(b: Seq<u8>) -> u32 {
    (b[0] as int + 0x100 * b[1] as int + 0x1_0000 * b[2] as int + 0x100_0000 * b[3] as int) as u32
}

/// The four bytes of `v`, least significant first.
pub open spec fn le_bytes(v: u32) -> Seq<u8> {
    seq![
        (v % 0x100) as u8,
        (v / 0x100 % 0x100) as u8,
        (v / 0x1_0000 % 0x100) as u8,
        (v / 0x100_0000) as u8,
    ]
}

/// Reading back the bytes of `v` gives `v`.
pub proof fn lemma_le_round_trip(v: u32)
    ensures
        le_value(le_bytes(v)) == v,
{
    let b = le_bytes(v);
    assert(b[0] as int + 0x100 * b[1] as int + 0x1_0000 * b[2] as int + 0x100_0000 * b[3] as int
        == v) by (nonlinear_arith)
        requires
            b[0] == v % 0x100,
            b[1] == v / 0x100 % 0x100,
            b[2] == v / 0x1_0000 % 0x100,
            b[3] == v / 0x100_0000,
    ;
}

/// Relies on byteorder's `LittleEndian::read_u32`, which reads the first four
/// bytes of the buffer as a little-endian integer and panics on fewer.
#[verifier::external_body]
pub(crate) fn read_le_u32(buf: &[u8]) -> (r: u32)
    requires
        buf@.len() >= 4,
    ensures
        r == le_value(buf@),
{
    LittleEndian::read_u32(buf)
}

/// Relies on byteorder's `LittleEndian::write_u32`, which stores the integer
/// in the first four bytes of the buffer, least significant first, and panics
/// on fewer.
#[verifier::external_body]
pub(crate) fn write_le_u32(buf: &mut [u8], n: u32)
    requires
        old(buf)@.len() >= 4,
    ensures
        final(buf)@ == le_bytes(n) + old(buf)@.skip(4),
{
    LittleEndian::write_u32(buf, n)
}

} // verus!
