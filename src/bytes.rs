//! Big-endian integers as they are laid out in the archive's files.
use vstd::prelude::*;
use byteorder::{BigEndian, ByteOrder};

verus! {

/// The unsigned 16-bit big-endian integer at `p`.
pub open spec fn be16(s: Seq<u8>, p: int) -> int {
    s[p] as int * 256 + s[p + 1] as int
}

/// The unsigned 24-bit big-endian integer at `p`.
pub open spec fn be24(s: Seq<u8>, p: int) -> int {
    s[p] as int * 65536 + s[p + 1] as int * 256 + s[p + 2] as int
}

/// The unsigned 32-bit big-endian integer at `p`.
pub open spec fn be32(s: Seq<u8>, p: int) -> int {
    s[p] as int * 16777216 + s[p + 1] as int * 65536 + s[p + 2] as int * 256 + s[p + 3] as int
}

/// The signed (two's complement) 32-bit big-endian integer at `p`.
pub open spec fn be_i32(s: Seq<u8>, p: int) -> int {
    if s[p] >= 128 {
        be32(s, p) - 0x1_0000_0000
    } else {
        be32(s, p)
    }
}

/// Relies on byteorder's `BigEndian::read_u16`: the first two bytes of the
/// slice as a big-endian integer.
#[verifier::external_body]
pub(crate) fn read_be_u16(data: &[u8], pos: usize) -> (r: u16)
    requires
        pos + 2 <= data@.len(),
    ensures
        r as int == be16(data@, pos as int),
{
    BigEndian::read_u16(&data[pos..])
}

/// Relies on byteorder's `BigEndian::read_u32`: the first four bytes of the
/// slice as a big-endian integer.
#[verifier::external_body]
pub(crate) fn read_be_u32(data: &[u8], pos: usize) -> (r: u32)
    requires
        pos + 4 <= data@.len(),
    ensures
        r as int == be32(data@, pos as int),
{
    BigEndian::read_u32(&data[pos..])
}

/// Relies on byteorder's `BigEndian::read_i32`: the first four bytes of the
/// slice as a big-endian two's complement integer.
#[verifier::external_body]
pub(crate) fn read_be_i32(data: &[u8], pos: usize) -> (r: i32)
    requires
        pos + 4 <= data@.len(),
    ensures
        r as int == be_i32(data@, pos as int),
{
    BigEndian::read_i32(&data[pos..])
}

} // verus!
