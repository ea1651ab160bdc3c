//! Points of the map, kept as the bit patterns of their coordinates.
//!
//! Every coordinate is an IEEE 754 single-precision number. The library moves
//! coordinates about and orders cells by them, but never computes with them, so
//! it keeps the 32 bits of each. A consumer turns them back into numbers.

use vstd::prelude::*;

verus! {

/// A point of the plane: the bit patterns of its two coordinates.
#[derive(Clone, Copy, Debug, PartialEq, Eq, Structural)]
pub struct PointBits {
    pub x: u32,
    pub y: u32,
}

/// Largest magnitude (the low 31 bits) of a pattern that is a number, not a NaN.
pub const INFINITY_BITS: u32 = 0x7f80_0000;

/// The bit that holds the sign.
pub const SIGN_BIT: u32 = 0x8000_0000;

/// `bits` is the pattern of a number (an infinity counts as one).
pub open spec fn is_number(bits: u32) -> bool {
    ||| bits <= INFINITY_BITS
    ||| SIGN_BIT <= bits <= SIGN_BIT + INFINITY_BITS
}

/// The integer by which the number with the pattern `bits` is ordered. The
/// patterns of the non-negative numbers grow with the number; those of the
/// negative ones grow with its magnitude; both zeros get the same integer.
pub open spec fn order_of(bits: u32) -> int {
    if bits < SIGN_BIT {
        bits as int
    } else {
        SIGN_BIT - bits
    }
}

/// Computes [`order_of`].
pub fn order_key(bits: u32) -> (key: i128)
    ensures
        key == order_of(bits),
{
    if bits < SIGN_BIT {
        bits as i128
    } else {
        SIGN_BIT as i128 - bits as i128
    }
}

/// Whether `bits` is the pattern of a number.
pub fn has_number(bits: u32) -> (r: bool)
    ensures
        r == is_number(bits),
{
    bits <= INFINITY_BITS || (bits >= SIGN_BIT && bits - SIGN_BIT <= INFINITY_BITS)
}

/// Numbers are ordered as they should be: a pattern below the sign bit stands for a
/// number that grows with it, the same pattern with the sign bit for its negative, and
/// only the two zeros are told apart by their patterns but not by their order.
pub proof fn law_patterns_are_ordered_as_numbers(a: u32, b: u32)
    requires
        a < 0x8000_0000,
        b < 0x8000_0000,
    ensures
        a < b <==> order_of(a) < order_of(b),
        order_of((a + 0x8000_0000) as u32) == -order_of(a),
        order_of(0) == 0,
        is_number(a) <==> a <= 0x7f80_0000,
        is_number((a + 0x8000_0000) as u32) <==> is_number(a),
{
}

} // verus!
