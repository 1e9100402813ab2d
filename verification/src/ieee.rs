//! Ordering of IEEE 754 single-precision values by their bit patterns.
//!
//! A pattern with a clear sign bit stands for a value that grows with the
//! pattern read as an integer; one with the sign bit set stands for the
//! negation of the value of the pattern without that bit. Reading a pattern
//! as a signed magnitude therefore orders all numbers as their values are
//! ordered, with both zeros in the same place. Patterns that are not numbers
//! are ordered by the same rule and so lie beyond the infinity of their sign.

use vstd::prelude::*;

verus! {

/// The pattern of positive infinity; every larger magnitude is not a number.
pub const INFINITY_BITS: u32 = 0x7f80_0000;

/// The pattern with only the sign bit set.
pub const SIGN_BIT: u32 = 0x8000_0000;

/// The signed magnitude of a pattern: the integer by which patterns are ordered.
pub open spec fn order_key(bits: u32) -> int {
    if bits < SIGN_BIT {
        bits as int
    } else {
        SIGN_BIT as int - bits as int
    }
}

/// Whether the pattern stands for a value that is not a number.
pub open spec fn is_nan(bits: u32) -> bool {
    order_key(bits) > INFINITY_BITS as int || order_key(bits) < -(INFINITY_BITS as int)
}

/// Whether the pattern stands for zero, of either sign.
pub open spec fn is_zero(bits: u32) -> bool {
    order_key(bits) == 0
}

/// Whether `a` stands strictly after `b` in the order of patterns.
pub open spec fn above(a: u32, b: u32) -> bool {
    order_key(a) > order_key(b)
}

/// Computes the signed magnitude of a pattern.
pub fn key(bits: u32) -> (k: i64)
    ensures
        k == order_key(bits),
        -(SIGN_BIT as int) < k < SIGN_BIT as int,
{
    if bits < SIGN_BIT {
        bits as i64
    } else {
        SIGN_BIT as i64 - bits as i64
    }
}

/// Tests whether a pattern is not a number.
pub fn not_a_number(bits: u32) -> (r: bool)
    ensures
        r == is_nan(bits),
{
    let k: i64 = key(bits);
    k > INFINITY_BITS as i64 || k < -(INFINITY_BITS as i64)
}

/// Tests whether a pattern is a zero.
pub fn zero(bits: u32) -> (r: bool)
    ensures
        r == is_zero(bits),
{
    key(bits) == 0
}

/// Tests whether `a` is ordered strictly after `b`.
pub fn greater(a: u32, b: u32) -> (r: bool)
    ensures
        r == above(a, b),
{
    key(a) > key(b)
}

} // verus!
