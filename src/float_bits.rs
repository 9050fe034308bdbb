//! Facts about IEEE 754 doubles read from their 64-bit patterns.
//!
//! A double's pattern is its sign bit followed by eleven exponent bits and
//! fifty-two fraction bits. Two readings of a pattern are needed here: whether
//! the double is strictly positive, and its place in the IEEE 754 total order.

use vstd::prelude::*;

verus! {

/// The sign bit of a double.
pub const SIGN_BIT: u64 = 0x8000_0000_0000_0000;

/// The pattern of positive infinity: the largest pattern of a positive double
/// that is not a NaN.
pub const POSITIVE_INFINITY_BITS: u64 = 0x7ff0_0000_0000_0000;

/// The pattern of the double `1.0`.
pub const ONE_BITS: u64 = 0x3ff0_0000_0000_0000;

/// The double with pattern `bits` compares greater than zero: its sign bit is
/// clear, it is not a zero, and it is not a NaN. The positive doubles, from
/// the least subnormal up to infinity, have exactly the patterns
/// `1 ..= POSITIVE_INFINITY_BITS`.
pub open spec fn is_positive_bits(bits: u64) -> bool {
    0 < bits <= POSITIVE_INFINITY_BITS
}

/// The place of the double with pattern `bits` in the IEEE 754 total order.
/// A pattern with the sign bit clear grows with its magnitude and ranks above
/// every pattern with the sign bit set; among those, a larger magnitude ranks
/// lower. For doubles that are not NaN this is the numeric order, with `-0.0`
/// just below `+0.0`.
pub open spec fn total_order_key(bits: u64) -> int {
    if bits < SIGN_BIT {
        bits + SIGN_BIT
    } else {
        u64::MAX - bits
    }
}

/// Distinct patterns have distinct places in the total order.
pub proof fn lemma_order_key_injective(a: u64, b: u64)
    ensures
        total_order_key(a) == total_order_key(b) ==> a == b,
{
}

/// Whether the double with pattern `bits` is greater than zero.
pub fn is_positive(bits: u64) -> (r: bool)
    ensures
        r == is_positive_bits(bits),
{
    0 < bits && bits <= POSITIVE_INFINITY_BITS
}

/// The key of `bits` in the total order: a set sign bit inverts every bit, a
/// clear one is set.
pub fn order_key(bits: u64) -> (r: u64)
    ensures
        r == total_order_key(bits),
{
    if bits & SIGN_BIT == 0 {
        assert(bits & 0x8000_0000_0000_0000u64 == 0 ==> bits < 0x8000_0000_0000_0000u64
            && bits | 0x8000_0000_0000_0000u64 == bits + 0x8000_0000_0000_0000u64) by (bit_vector);
        bits | SIGN_BIT
    } else {
        assert(bits & 0x8000_0000_0000_0000u64 != 0 ==> bits >= 0x8000_0000_0000_0000u64
            && !bits == 0xffff_ffff_ffff_ffffu64 - bits) by (bit_vector);
        !bits
    }
}

} // verus!
