//! Fixed-width integers as they lie on the wire.
//!
//! Each function reads the first bytes of a sequence; what follows them
//! plays no part.

use vstd::prelude::*;

verus! {

/// The first two bytes as a little-endian number.
pub open spec fn le_u16(s: Seq<u8>) -> u16 {
    (s[0] + 0x100 * s[1]) as u16
}

/// The first four bytes as a little-endian number.
pub open spec fn le_u32(s: Seq<u8>) -> u32 {
    (s[0] + 0x100 * s[1] + 0x1_0000 * s[2] + 0x100_0000 * s[3]) as u32
}

/// The first eight bytes as a little-endian number.
pub open spec fn le_u64(s: Seq<u8>) -> u64 {
    (le_u32(s) + 0x1_0000_0000 * le_u32(s.skip(4))) as u64
}

/// The first eight bytes as a big-endian number.
pub open spec fn be_u64(s: Seq<u8>) -> u64 {
    (0x100_0000_0000_0000 * s[0] + 0x1_0000_0000_0000 * s[1] + 0x100_0000_0000 * s[2]
        + 0x1_0000_0000 * s[3] + 0x100_0000 * s[4] + 0x1_0000 * s[5] + 0x100 * s[6] + s[7]) as u64
}

/// The two's-complement reading of a 32-bit pattern.
pub open spec fn signed32(v: u32) -> i32 {
    if v < 0x8000_0000 {
        v as i32
    } else {
        (v - 0x1_0000_0000) as i32
    }
}

/// The two's-complement reading of a 64-bit pattern.
pub open spec fn signed64(v: u64) -> i64 {
    if v < 0x8000_0000_0000_0000 {
        v as i64
    } else {
        (v - 0x1_0000_0000_0000_0000) as i64
    }
}

/// The first four bytes as a little-endian number in two's complement.
pub open spec fn le_i32(s: Seq<u8>) -> i32 {
    signed32(le_u32(s))
}

/// The first eight bytes as a little-endian number in two's complement.
pub open spec fn le_i64(s: Seq<u8>) -> i64 {
    signed64(le_u64(s))
}

/// Assembles a `u16` from two little-endian bytes.
pub(crate) fn u16_from_le(b: &[u8]) -> (v: u16)
    requires
        b@.len() == 2,
    ensures
        v == le_u16(b@),
{
    let lo: u16 = b[0] as u16;
    let hi: u16 = b[1] as u16;
    lo + 0x100 * hi
}

/// Assembles a `u32` from four little-endian bytes.
pub(crate) fn u32_from_le(b: &[u8]) -> (v: u32)
    requires
        b@.len() == 4,
    ensures
        v == le_u32(b@),
{
    let b0: u32 = b[0] as u32;
    let b1: u32 = b[1] as u32;
    let b2: u32 = b[2] as u32;
    let b3: u32 = b[3] as u32;
    b0 + 0x100 * b1 + 0x1_0000 * b2 + 0x100_0000 * b3
}

/// Assembles a `u64` from eight little-endian bytes.
pub(crate) fn u64_from_le(b: &[u8]) -> (v: u64)
    requires
        b@.len() == 8,
    ensures
        v == le_u64(b@),
{
    let b0: u64 = b[0] as u64;
    let b1: u64 = b[1] as u64;
    let b2: u64 = b[2] as u64;
    let b3: u64 = b[3] as u64;
    let b4: u64 = b[4] as u64;
    let b5: u64 = b[5] as u64;
    let b6: u64 = b[6] as u64;
    let b7: u64 = b[7] as u64;
    let lo: u64 = b0 + 0x100 * b1 + 0x1_0000 * b2 + 0x100_0000 * b3;
    let hi: u64 = b4 + 0x100 * b5 + 0x1_0000 * b6 + 0x100_0000 * b7;
    lo + 0x1_0000_0000 * hi
}

/// Assembles a `u64` from eight big-endian bytes.
pub(crate) fn u64_from_be(b: &[u8]) -> (v: u64)
    requires
        b@.len() == 8,
    ensures
        v == be_u64(b@),
{
    let b0: u64 = b[0] as u64;
    let b1: u64 = b[1] as u64;
    let b2: u64 = b[2] as u64;
    let b3: u64 = b[3] as u64;
    let b4: u64 = b[4] as u64;
    let b5: u64 = b[5] as u64;
    let b6: u64 = b[6] as u64;
    let b7: u64 = b[7] as u64;
    let hi: u64 = 0x100_0000 * b0 + 0x1_0000 * b1 + 0x100 * b2 + b3;
    let lo: u64 = 0x100_0000 * b4 + 0x1_0000 * b5 + 0x100 * b6 + b7;
    0x1_0000_0000 * hi + lo
}

/// Reads a 32-bit pattern as two's complement.
pub(crate) fn i32_from_u32(v: u32) -> (r: i32)
    ensures
        r == signed32(v),
{
    if v < 0x8000_0000 {
        v as i32
    } else {
        (v as i64 - 0x1_0000_0000) as i32
    }
}

/// Reads a 64-bit pattern as two's complement.
pub(crate) fn i64_from_u64(v: u64) -> (r: i64)
    ensures
        r == signed64(v),
{
    if v < 0x8000_0000_0000_0000 {
        v as i64
    } else {
        (v as i128 - 0x1_0000_0000_0000_0000) as i64
    }
}

} // verus!
