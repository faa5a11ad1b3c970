//! Little-endian extraction of the fixed-width fields that the file format
//! stores: `u64` headers and code patterns, and the `i32` code length.

use vstd::prelude::*;

verus! {

/// Value of the eight little-endian bytes at `off`.
pub open spec fn spec_u64_le(s: Seq<u8>, off: int) -> int {
    s[off] + s[off + 1] * 0x100 + s[off + 2] * 0x1_0000 + s[off + 3] * 0x100_0000 + s[off + 4]
        * 0x1_0000_0000 + s[off + 5] * 0x100_0000_0000 + s[off + 6] * 0x1_0000_0000_0000 + s[off
        + 7] * 0x100_0000_0000_0000
}

/// Value of the four little-endian bytes at `off`, before sign interpretation.
pub open spec fn spec_u32_le(s: Seq<u8>, off: int) -> int {
    s[off] + s[off + 1] * 0x100 + s[off + 2] * 0x1_0000 + s[off + 3] * 0x100_0000
}

/// Value of the four little-endian bytes at `off` read as a two's-complement
/// signed 32-bit integer.
pub open spec fn spec_i32_le(s: Seq<u8>, off: int) -> int {
    let u = spec_u32_le(s, off);
    if u < 0x8000_0000 {
        u
    } else {
        u - 0x1_0000_0000
    }
}

/// Reads the eight-byte little-endian unsigned integer at `off`.
pub fn read_u64_le(data: &Vec<u8>, off: usize) -> (r: u64)
    requires
        off + 8 <= data.len(),
    ensures
        r == spec_u64_le(data@, off as int),
{
    (data[off] as u64) + (data[off + 1] as u64) * 0x100 + (data[off + 2] as u64) * 0x1_0000 + (
    data[off + 3] as u64) * 0x100_0000 + (data[off + 4] as u64) * 0x1_0000_0000 + (data[off
        + 5] as u64) * 0x100_0000_0000 + (data[off + 6] as u64) * 0x1_0000_0000_0000 + (data[off
        + 7] as u64) * 0x100_0000_0000_0000
}

/// Reads the four-byte little-endian two's-complement integer at `off`.
pub fn read_i32_le(data: &Vec<u8>, off: usize) -> (r: i32)
    requires
        off + 4 <= data.len(),
    ensures
        r == spec_i32_le(data@, off as int),
{
    let u: u32 = (data[off] as u32) + (data[off + 1] as u32) * 0x100 + (data[off + 2] as u32)
        * 0x1_0000 + (data[off + 3] as u32) * 0x100_0000;
    if u < 0x8000_0000 {
        u as i32
    } else if u == 0x8000_0000 {
        i32::MIN
    } else {
        let magnitude: u32 = (0x1_0000_0000u64 - (u as u64)) as u32;
        -(magnitude as i32)
    }
}

} // verus!
