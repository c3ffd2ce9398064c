//! Little-endian integers on the wire, read with `byteorder`.

use vstd::prelude::*;
use byteorder::{BigEndian, ByteOrder, LittleEndian};

verus! {

/// The little-endian value of the first two bytes of `b`.
pub open spec fn le_u16(b: Seq<u8>) -> nat {
    b[0] as nat + 256 * (b[1] as nat)
}

/// The little-endian value of the first four bytes of `b`.
pub open spec fn le_u32(b: Seq<u8>) -> nat {
    b[0] as nat + 256 * (b[1] as nat) + 65536 * (b[2] as nat) + 16777216 * (b[3] as nat)
}

/// `LittleEndian::read_u16` of `byteorder`: the first two bytes, least significant first.
/// It panics on fewer than two bytes, which the precondition rules out.
#[verifier::external_body]
pub(crate) fn read_u16_le(buf: &[u8]) -> (r: u16)
    requires
        buf@.len() >= 2,
    ensures
        r == le_u16(buf@),
{
    LittleEndian::read_u16(buf)
}

/// `LittleEndian::read_u32` of `byteorder`: the first four bytes, least significant first.
/// It panics on fewer than four bytes, which the precondition rules out.
#[verifier::external_body]
pub(crate) fn read_u32_le(buf: &[u8]) -> (r: u32)
    requires
        buf@.len() >= 4,
    ensures
        r == le_u32(buf@),
{
    LittleEndian::read_u32(buf)
}


/// The big-endian value of the first two bytes of `b`.
pub open spec fn be_u16(b: Seq<u8>) -> nat {
    256 * (b[0] as nat) + b[1] as nat
}

/// `BigEndian::read_u16` of `byteorder`: the first two bytes, most significant first.
/// It panics on fewer than two bytes, which the precondition rules out.
#[verifier::external_body]
pub(crate) fn read_u16_be(buf: &[u8]) -> (r: u16)
    requires
        buf@.len() >= 2,
    ensures
        r == be_u16(buf@),
{
    BigEndian::read_u16(buf)
}

} // verus!
