use byteorder::{ByteOrder, LE};
use vstd::prelude::*;

verus! {

/// The unsigned integer stored little-endian in `b[at..at + 2]`.
pub open spec fn le_u16_at(b: Seq<u8>, at: int) -> int {
    b[at] as int + 256 * b[at + 1] as int
}

/// The unsigned integer stored little-endian in `b[at..at + 4]`.
pub open spec fn le_u32_at(b: Seq<u8>, at: int) -> int {
    le_u16_at(b, at) + 65536 * le_u16_at(b, at + 2)
}

/// The unsigned integer stored little-endian in `b[at..at + 8]`.
pub open spec fn le_u64_at(b: Seq<u8>, at: int) -> int {
    le_u32_at(b, at) + 4294967296 * le_u32_at(b, at + 4)
}

/// Relies on byteorder's `LittleEndian::read_u16`: the first two bytes of
/// its argument, least significant first.
#[verifier::external_body]
pub(crate) fn read_u16_le(b: &[u8], at: usize) -> (r: u16)
    requires
        at + 2 <= b@.len(),
    ensures
        r as int == le_u16_at(b@, at as int),
{
    LE::read_u16(&b[at..])
}

/// Relies on byteorder's `LittleEndian::read_u32`: the first four bytes of
/// its argument, least significant first.
#[verifier::external_body]
pub(crate) fn read_u32_le(b: &[u8], at: usize) -> (r: u32)
    requires
        at + 4 <= b@.len(),
    ensures
        r as int == le_u32_at(b@, at as int),
{
    LE::read_u32(&b[at..])
}

/// Relies on byteorder's `LittleEndian::read_u64`: the first eight bytes of
/// its argument, least significant first.
#[verifier::external_body]
pub(crate) fn read_u64_le(b: &[u8], at: usize) -> (r: u64)
    requires
        at + 8 <= b@.len(),
    ensures
        r as int == le_u64_at(b@, at as int),
{
    LE::read_u64(&b[at..])
}

} // verus!
