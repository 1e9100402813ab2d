//! Little-endian integers in a byte sequence.

use vstd::prelude::*;

verus! {

/// The unsigned 32-bit integer whose little-endian encoding starts at `at`.
pub open spec fn le_u32(data: Seq<u8>, at: int) -> int
    recommends
        0 <= at,
        at + 4 <= data.len(),
{
    data[at] as int + 0x100 * (data[at + 1] as int) + 0x1_0000 * (data[at + 2] as int)
        + 0x100_0000 * (data[at + 3] as int)
}

/// The signed 32-bit integer, in two's complement, whose little-endian
/// encoding starts at `at`.
pub open spec fn le_i32(data: Seq<u8>, at: int) -> int
    recommends
        0 <= at,
        at + 4 <= data.len(),
{
    if le_u32(data, at) < 0x8000_0000 {
        le_u32(data, at)
    } else {
        le_u32(data, at) - 0x1_0000_0000
    }
}

/// Reads the unsigned 32-bit integer at `at`.
pub fn read_u32(data: &[u8], at: usize) -> (r: u32)
    requires
        at + 4 <= data.len(),
    ensures
        r == le_u32(data@, at as int),
{
    let b0: u32 = data[at] as u32;
    let b1: u32 = data[at + 1] as u32;
    let b2: u32 = data[at + 2] as u32;
    let b3: u32 = data[at + 3] as u32;
    b0 + 0x100 * b1 + 0x1_0000 * b2 + 0x100_0000 * b3
}

/// Reads the signed 32-bit integer at `at`.
pub fn read_i32(data: &[u8], at: usize) -> (r: i32)
    requires
        at + 4 <= data.len(),
    ensures
        r == le_i32(data@, at as int),
{
    let u: u32 = read_u32(data, at);
    if u < 0x8000_0000 {
        u as i32
    } else {
        let low: u32 = u - 0x8000_0000;
        (low as i32) - 0x4000_0000 - 0x4000_0000
    }
}

} // verus!
