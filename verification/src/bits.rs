//! Single-precision numbers as bit patterns.
//!
//! A `u32` holds the bits of an `f32`: the sign in the top bit, eight bits of exponent, 23 of
//! fraction. Everything that only looks at a number (is it finite, which of two is smaller) can
//! be decided on the bits, and is decided here.

use vstd::prelude::*;

verus! {

/// Bit patterns from here up have the sign bit set.
pub const SIGN: u32 = 0x8000_0000;

/// The bits of positive infinity.
pub const INFINITY: u32 = 0x7F80_0000;

/// The bits without the sign.
pub open spec fn magnitude(bits: u32) -> int {
    if bits < SIGN {
        bits as int
    } else {
        bits - SIGN
    }
}

/// Neither an infinity nor a NaN.
pub open spec fn finite(bits: u32) -> bool {
    magnitude(bits) < INFINITY
}

/// A zero, of either sign.
pub open spec fn zero(bits: u32) -> bool {
    magnitude(bits) == 0
}

pub open spec fn nan(bits: u32) -> bool {
    magnitude(bits) > INFINITY
}

/// Orders the numbers that are not NaN by value; both zeros get the same place.
pub open spec fn value_rank(bits: u32) -> int {
    if bits < SIGN {
        magnitude(bits)
    } else {
        -magnitude(bits)
    }
}

/// The IEEE comparison `a < b`, which is false as soon as one side is NaN.
pub open spec fn less(a: u32, b: u32) -> bool {
    !nan(a) && !nan(b) && value_rank(a) < value_rank(b)
}

/// Position in the IEEE total order: negative NaN, the negative numbers, negative zero, positive
/// zero, the positive numbers, positive NaN. No two bit patterns share a position.
pub open spec fn total_rank(bits: u32) -> u32 {
    if bits < SIGN {
        (bits + SIGN) as u32
    } else {
        (0xFFFF_FFFF - bits) as u32
    }
}

/// The bit pattern at a position of the total order.
pub open spec fn rank_bits(rank: u32) -> u32 {
    if rank >= SIGN {
        (rank - SIGN) as u32
    } else {
        (0xFFFF_FFFF - rank) as u32
    }
}

/// A position in the total order and the bits at it determine each other.
pub proof fn lemma_rank_round_trip(x: u32)
    ensures
        rank_bits(total_rank(x)) == x,
        total_rank(rank_bits(x)) == x,
{
}

/// Where two numbers compare as `a < b`, the total order agrees.
pub proof fn lemma_less_agrees_with_rank(a: u32, b: u32)
    requires
        less(a, b),
    ensures
        total_rank(a) < total_rank(b),
{
}

/// Every finite number comes before every positive NaN in the total order.
pub proof fn lemma_nan_ranks_last(a: u32, b: u32)
    requires
        finite(a),
        nan(b),
        b < SIGN,
    ensures
        total_rank(a) < total_rank(b),
{
}

/// What the bits of a number say: with the exponent all ones it is an infinity or, if the fraction
/// is not zero, a NaN; with everything but the sign zero it is a zero.
pub proof fn lemma_bit_fields(bits: u32)
    ensures
        finite(bits) <==> bits & 0x7F80_0000 != 0x7F80_0000,
        nan(bits) <==> bits & 0x7F80_0000 == 0x7F80_0000 && bits & 0x007F_FFFF != 0,
        zero(bits) <==> bits & 0x7FFF_FFFF == 0,
{
    let low = bits & 0x7FFF_FFFF;
    assert(low == if bits < 0x8000_0000u32 {
        bits as int
    } else {
        bits - 0x8000_0000
    }) by (bit_vector)
        requires
            low == bits & 0x7FFF_FFFF,
    ;
    assert((low < 0x7F80_0000) == (bits & 0x7F80_0000 != 0x7F80_0000) && (low > 0x7F80_0000) == (
    bits & 0x7F80_0000 == 0x7F80_0000 && bits & 0x007F_FFFF != 0)) by (bit_vector)
        requires
            low == bits & 0x7FFF_FFFF,
    ;
}

/// How numbers compare: below zero the greater magnitude is the smaller number, from zero up it is
/// the greater one, a negative number is below every other unless both are zeros, and with a NaN
/// nothing is smaller.
pub proof fn lemma_less(a: u32, b: u32)
    ensures
        nan(a) || nan(b) ==> !less(a, b),
        !nan(a) && !nan(b) && a < SIGN && b < SIGN ==> (less(a, b) <==> a < b),
        !nan(a) && !nan(b) && a >= SIGN && b >= SIGN ==> (less(a, b) <==> a > b),
        !nan(a) && !nan(b) && a >= SIGN && b < SIGN ==> (less(a, b) <==> !(zero(a) && zero(b))),
        a < SIGN && b >= SIGN ==> !less(a, b),
{
}

/// How all bit patterns are ordered: those with the sign first, the greatest of them foremost, then
/// those without it in rising order.
pub proof fn lemma_total_order(a: u32, b: u32)
    ensures
        a >= SIGN && b < SIGN ==> total_rank(a) < total_rank(b),
        a < SIGN && b < SIGN ==> (total_rank(a) < total_rank(b) <==> a < b),
        a >= SIGN && b >= SIGN ==> (total_rank(a) < total_rank(b) <==> a > b),
{
}

/// Whether a number is a zero, of either sign.
pub fn is_zero(bits: u32) -> (r: bool)
    ensures
        r == zero(bits),
{
    bits == 0 || bits == SIGN
}

pub fn is_finite(bits: u32) -> (r: bool)
    ensures
        r == finite(bits),
{
    if bits < SIGN {
        bits < INFINITY
    } else {
        bits - SIGN < INFINITY
    }
}

pub fn is_nan(bits: u32) -> (r: bool)
    ensures
        r == nan(bits),
{
    if bits < SIGN {
        bits > INFINITY
    } else {
        bits - SIGN > INFINITY
    }
}

/// `a < b` as the floating-point comparison has it.
pub fn is_less(a: u32, b: u32) -> (r: bool)
    ensures
        r == less(a, b),
{
    if is_nan(a) || is_nan(b) {
        false
    } else if a < SIGN {
        b < SIGN && a < b
    } else if b < SIGN {
        a > SIGN || b > 0
    } else {
        a > b
    }
}

pub fn to_rank(bits: u32) -> (r: u32)
    ensures
        r == total_rank(bits),
{
    if bits < SIGN {
        bits + SIGN
    } else {
        0xFFFF_FFFF - bits
    }
}

pub fn from_rank(rank: u32) -> (r: u32)
    ensures
        r == rank_bits(rank),
{
    if rank >= SIGN {
        rank - SIGN
    } else {
        0xFFFF_FFFF - rank
    }
}

} // verus!
