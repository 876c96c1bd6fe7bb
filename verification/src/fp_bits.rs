//! Structure of IEEE-754 binary64 bit patterns.
//!
//! The library stores scalar coordinates as the `u64` bit pattern of a
//! binary64 value. Arithmetic on those scalars is outside the verified
//! core, but the comparisons that validation needs — against zero, and
//! between two bounds — are exact functions of the bit patterns, and are
//! implemented and specified here. On bit patterns `a` and `b` of the
//! binary64 values `x` and `y`, `f64_le(a, b)` holds exactly when
//! `x <= y` under IEEE-754 comparison: any NaN compares false, the two
//! zeroes are equal, and otherwise the sign and the magnitude decide.

use vstd::prelude::*;

verus! {

/// Mask of the sign bit.
pub const F64_SIGN_MASK: u64 = 0x8000_0000_0000_0000;

/// Mask of the exponent and fraction: the magnitude of the value.
pub const F64_MAGNITUDE_MASK: u64 = 0x7fff_ffff_ffff_ffff;

/// Mask of the exponent field alone.
pub const F64_EXPONENT_MASK: u64 = 0x7ff0_0000_0000_0000;

/// Bit pattern of the largest finite binary64 value.
pub const F64_MAX_BITS: u64 = 0x7fef_ffff_ffff_ffff;

/// Bit pattern of the smallest (most negative) finite binary64 value.
pub const F64_MIN_BITS: u64 = 0xffef_ffff_ffff_ffff;

/// The sign bit is set: the value is negative, a negative zero, or a NaN
/// with the sign bit set.
pub open spec fn f64_is_sign_neg(bits: u64) -> bool {
    bits & F64_SIGN_MASK == F64_SIGN_MASK
}

/// The value is a NaN: exponent all ones, fraction not zero.
pub open spec fn f64_is_nan(bits: u64) -> bool {
    bits & F64_EXPONENT_MASK == F64_EXPONENT_MASK && bits & F64_MAGNITUDE_MASK != bits
        & F64_EXPONENT_MASK
}

/// The value is a zero of either sign.
pub open spec fn f64_is_zero(bits: u64) -> bool {
    bits & F64_MAGNITUDE_MASK == 0
}

/// The value compares less than or equal to zero: a zero of either sign,
/// or a negative non-NaN value.
pub open spec fn f64_le_zero(bits: u64) -> bool {
    f64_is_zero(bits) || (f64_is_sign_neg(bits) && !f64_is_nan(bits))
}

/// The value compares strictly less than zero: negative, not a NaN, and
/// not a zero.
pub open spec fn f64_lt_zero(bits: u64) -> bool {
    f64_is_sign_neg(bits) && !f64_is_nan(bits) && !f64_is_zero(bits)
}

/// The value compares less than or equal to the other: false when either
/// is a NaN; the two zeroes are equal; otherwise sign-magnitude order.
pub open spec fn f64_le(a: u64, b: u64) -> bool {
    if f64_is_nan(a) || f64_is_nan(b) {
        false
    } else if f64_is_zero(a) && f64_is_zero(b) {
        true
    } else if f64_is_sign_neg(a) != f64_is_sign_neg(b) {
        f64_is_sign_neg(a)
    } else if !f64_is_sign_neg(a) {
        a & F64_MAGNITUDE_MASK <= b & F64_MAGNITUDE_MASK
    } else {
        a & F64_MAGNITUDE_MASK >= b & F64_MAGNITUDE_MASK
    }
}

/// The value compares strictly greater than the other: both are non-NaN
/// and `le` fails.
pub open spec fn f64_gt(a: u64, b: u64) -> bool {
    !f64_is_nan(a) && !f64_is_nan(b) && !f64_le(a, b)
}

/// The value compares strictly less than the other.
pub open spec fn f64_lt(a: u64, b: u64) -> bool {
    f64_gt(b, a)
}

/// The value is finite: neither a NaN nor an infinity.
pub open spec fn f64_is_finite(bits: u64) -> bool {
    bits & F64_EXPONENT_MASK != F64_EXPONENT_MASK
}

/// The smaller of two binary64 values, by bit pattern: a NaN loses to
/// the other argument, and a tie between the two zeroes goes to the
/// negative zero.
pub open spec fn f64_min_bits(a: u64, b: u64) -> u64 {
    if f64_is_nan(a) {
        b
    } else if f64_is_nan(b) {
        a
    } else if f64_is_zero(a) && f64_is_zero(b) {
        if f64_is_sign_neg(a) {
            a
        } else {
            b
        }
    } else if f64_le(a, b) {
        a
    } else {
        b
    }
}

/// The larger of two binary64 values, by bit pattern: a NaN loses to
/// the other argument, and a tie between the two zeroes goes to the
/// positive zero.
pub open spec fn f64_max_bits(a: u64, b: u64) -> u64 {
    if f64_is_nan(a) {
        b
    } else if f64_is_nan(b) {
        a
    } else if f64_is_zero(a) && f64_is_zero(b) {
        if f64_is_sign_neg(a) {
            b
        } else {
            a
        }
    } else if f64_le(a, b) {
        b
    } else {
        a
    }
}

/// Decide `f64_min_bits` on two bit patterns.
pub fn min_bits(a: u64, b: u64) -> (r: u64)
    ensures
        r == f64_min_bits(a, b),
{
    if is_nan(a) {
        b
    } else if is_nan(b) {
        a
    } else if is_zero(a) && is_zero(b) {
        if is_sign_neg(a) {
            a
        } else {
            b
        }
    } else if le(a, b) {
        a
    } else {
        b
    }
}

/// Decide `f64_max_bits` on two bit patterns.
pub fn max_bits(a: u64, b: u64) -> (r: u64)
    ensures
        r == f64_max_bits(a, b),
{
    if is_nan(a) {
        b
    } else if is_nan(b) {
        a
    } else if is_zero(a) && is_zero(b) {
        if is_sign_neg(a) {
            b
        } else {
            a
        }
    } else if le(a, b) {
        b
    } else {
        a
    }
}

/// `f64_min_bits` and `f64_max_bits` do not care about argument order,
/// as long as the arguments are not both NaN.
pub proof fn lemma_min_max_bits_commutative(a: u64, b: u64)
    by (bit_vector)
    requires
        !f64_is_nan(a) || !f64_is_nan(b),
    ensures
        f64_min_bits(a, b) == f64_min_bits(b, a),
        f64_max_bits(a, b) == f64_max_bits(b, a),
{
}

/// `f64_min_bits` and `f64_max_bits` of a value with itself give it
/// back.
pub proof fn lemma_min_max_bits_idempotent(a: u64)
    by (bit_vector)
    ensures
        f64_min_bits(a, a) == a,
        f64_max_bits(a, a) == a,
{
}

/// Against the finite extremes, `f64_min_bits` and `f64_max_bits` give
/// the finite value back.
pub proof fn lemma_min_max_bits_extreme(x: u64)
    by (bit_vector)
    requires
        f64_is_finite(x),
    ensures
        f64_min_bits(F64_MAX_BITS, x) == x,
        f64_max_bits(F64_MIN_BITS, x) == x,
{
}

/// `f64_le` is transitive.
pub proof fn lemma_f64_le_transitive(a: u64, b: u64, c: u64)
    by (bit_vector)
    requires
        f64_le(a, b),
        f64_le(b, c),
    ensures
        f64_le(a, c),
{
}

/// `f64_le` is total on non-NaN values.
pub proof fn lemma_f64_le_total(a: u64, b: u64)
    by (bit_vector)
    requires
        !f64_is_nan(a),
        !f64_is_nan(b),
    ensures
        f64_le(a, b) || f64_le(b, a),
{
}

/// `f64_lt` is transitive.
pub proof fn lemma_f64_lt_transitive(a: u64, b: u64, c: u64)
    requires
        f64_lt(a, b),
        f64_lt(b, c),
    ensures
        f64_lt(a, c),
{
    lemma_f64_le_total(a, b);
    if f64_le(c, a) {
        lemma_f64_le_transitive(c, a, b);
    }
}

/// Decide `f64_is_sign_neg` on a bit pattern.
pub fn is_sign_neg(bits: u64) -> (r: bool)
    ensures
        r == f64_is_sign_neg(bits),
{
    bits & F64_SIGN_MASK == F64_SIGN_MASK
}

/// Decide `f64_is_nan` on a bit pattern.
pub fn is_nan(bits: u64) -> (r: bool)
    ensures
        r == f64_is_nan(bits),
{
    bits & F64_EXPONENT_MASK == F64_EXPONENT_MASK && bits & F64_MAGNITUDE_MASK != bits
        & F64_EXPONENT_MASK
}

/// Decide `f64_is_zero` on a bit pattern.
pub fn is_zero(bits: u64) -> (r: bool)
    ensures
        r == f64_is_zero(bits),
{
    bits & F64_MAGNITUDE_MASK == 0
}

/// Decide `f64_le_zero` on a bit pattern.
pub fn le_zero(bits: u64) -> (r: bool)
    ensures
        r == f64_le_zero(bits),
{
    is_zero(bits) || (is_sign_neg(bits) && !is_nan(bits))
}

/// Decide `f64_lt_zero` on a bit pattern.
pub fn lt_zero(bits: u64) -> (r: bool)
    ensures
        r == f64_lt_zero(bits),
{
    is_sign_neg(bits) && !is_nan(bits) && !is_zero(bits)
}

/// Decide `f64_le` on two bit patterns.
pub fn le(a: u64, b: u64) -> (r: bool)
    ensures
        r == f64_le(a, b),
{
    if is_nan(a) || is_nan(b) {
        false
    } else if is_zero(a) && is_zero(b) {
        true
    } else if is_sign_neg(a) != is_sign_neg(b) {
        is_sign_neg(a)
    } else if !is_sign_neg(a) {
        a & F64_MAGNITUDE_MASK <= b & F64_MAGNITUDE_MASK
    } else {
        a & F64_MAGNITUDE_MASK >= b & F64_MAGNITUDE_MASK
    }
}

/// Decide `f64_gt` on two bit patterns.
pub fn gt(a: u64, b: u64) -> (r: bool)
    ensures
        r == f64_gt(a, b),
{
    !is_nan(a) && !is_nan(b) && !le(a, b)
}

/// Decide `f64_lt` on two bit patterns.
pub fn lt(a: u64, b: u64) -> (r: bool)
    ensures
        r == f64_lt(a, b),
{
    gt(b, a)
}

} // verus!
