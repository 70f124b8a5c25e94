//! The frame length prefix: a `u32` as four little-endian bytes.

use vstd::prelude::*;
use byteorder::{ByteOrder, LittleEndian};

verus! {

/// The four little-endian bytes of `x`, least significant first.
pub open spec fn spec_le_bytes(x: u32) -> Seq<u8> {
    seq![
        (x & 0xff) as u8,
        ((x >> 8) & 0xff) as u8,
        ((x >> 16) & 0xff) as u8,
        ((x >> 24) & 0xff) as u8,
    ]
}

/// The value of four little-endian bytes, least significant first.
pub open spec fn spec_u32_of_le(b: Seq<u8>) -> int {
    b[0] + 0x100 * b[1] + 0x1_0000 * b[2] + 0x100_0000 * b[3]
}

/// Relies on byteorder's `LittleEndian::write_u32`: it stores the four bytes
/// of `x` into the slice, least significant byte first.
#[verifier::external_body]
pub(crate) fn le_bytes_of_u32(x: u32) -> (r: Vec<u8>)
    ensures
        r@ == spec_le_bytes(x),
{
    let mut bytes: [u8; 4] = [0; 4];
    LittleEndian::write_u32(&mut bytes, x);
    bytes.to_vec()
}

/// Relies on byteorder's `LittleEndian::read_u32`: it reads a `u32` from the
/// first four bytes of the slice, least significant byte first.
#[verifier::external_body]
pub(crate) fn u32_of_le_bytes(b: &Vec<u8>) -> (r: u32)
    requires
        b@.len() == 4,
    ensures
        r as int == spec_u32_of_le(b@),
{
    LittleEndian::read_u32(b.as_slice())
}

/// Decoding the four little-endian bytes of a value gives the value back.
pub proof fn lemma_le_round_trip(x: u32)
    ensures
        spec_u32_of_le(spec_le_bytes(x)) == x,
{
    let b0 = x & 0xff;
    let b1 = (x >> 8) & 0xff;
    let b2 = (x >> 16) & 0xff;
    let b3 = (x >> 24) & 0xff;
    assert(b0 < 0x100 && b1 < 0x100 && b2 < 0x100 && b3 < 0x100) by (bit_vector)
        requires
            b0 == x & 0xff && b1 == (x >> 8) & 0xff && b2 == (x >> 16) & 0xff && b3 == (x >> 24)
                & 0xff,
    ;
    assert(b0 + 0x100 * b1 + 0x1_0000 * b2 + 0x100_0000 * b3 == x) by (bit_vector)
        requires
            b0 == x & 0xff && b1 == (x >> 8) & 0xff && b2 == (x >> 16) & 0xff && b3 == (x >> 24)
                & 0xff,
    ;
}

} // verus!
