//! Big-endian byte assembly and two's-complement reinterpretation, shared by
//! the cursor and the instruction decoder.
//!
//! The spec side works in unbounded integers built with `*` and `+`; the
//! executable side computes the same expressions in machine words, so no
//! bit-level reasoning is needed to relate the two.

use vstd::prelude::*;

verus! {

/// The big-endian 16-bit value at `p`.
pub open spec fn be_u16(b: Seq<u8>, p: int) -> int {
    (b[p] as int) * 0x100 + (b[p + 1] as int)
}

/// The big-endian 32-bit value at `p`.
pub open spec fn be_u32(b: Seq<u8>, p: int) -> int {
    (b[p] as int) * 0x1000000 + (b[p + 1] as int) * 0x10000 + (b[p + 2] as int) * 0x100 + (b[p
        + 3] as int)
}

/// The big-endian 64-bit value at `p`.
pub open spec fn be_u64(b: Seq<u8>, p: int) -> int {
    be_u32(b, p) * 0x100000000 + be_u32(b, p + 4)
}

/// The value of `v` reinterpreted as a signed 8-bit integer.
pub open spec fn spec_i8(v: u8) -> i8 {
    (if v < 0x80 {
        v as int
    } else {
        v as int - 0x100
    }) as i8
}

/// The value of `v` reinterpreted as a signed 16-bit integer.
pub open spec fn spec_i16(v: u16) -> i16 {
    (if v < 0x8000 {
        v as int
    } else {
        v as int - 0x10000
    }) as i16
}

/// The value of `v` reinterpreted as a signed 32-bit integer.
pub open spec fn spec_i32(v: u32) -> i32 {
    (if v < 0x80000000 {
        v as int
    } else {
        v as int - 0x100000000
    }) as i32
}

/// The value of `v` reinterpreted as a signed 64-bit integer.
pub open spec fn spec_i64(v: u64) -> i64 {
    (if v < 0x8000000000000000 {
        v as int
    } else {
        v as int - 0x10000000000000000
    }) as i64
}

/// Reinterprets an unsigned byte as signed.
pub fn u8_to_i8(v: u8) -> (r: i8)
    ensures
        r == spec_i8(v),
{
    if v < 0x80 {
        v as i8
    } else {
        ((v as i16) - 0x100) as i8
    }
}

/// Reinterprets an unsigned 16-bit value as signed.
pub fn u16_to_i16(v: u16) -> (r: i16)
    ensures
        r == spec_i16(v),
{
    if v < 0x8000 {
        v as i16
    } else {
        ((v as i32) - 0x10000) as i16
    }
}

/// Reinterprets an unsigned 32-bit value as signed.
pub fn u32_to_i32(v: u32) -> (r: i32)
    ensures
        r == spec_i32(v),
{
    if v < 0x80000000 {
        v as i32
    } else {
        ((v as i64) - 0x100000000) as i32
    }
}

/// Reinterprets an unsigned 64-bit value as signed.
pub fn u64_to_i64(v: u64) -> (r: i64)
    ensures
        r == spec_i64(v),
{
    if v < 0x8000000000000000 {
        v as i64
    } else {
        ((v - 0x8000000000000000) as i64) + (-0x7FFFFFFFFFFFFFFF - 1)
    }
}

} // verus!
