//! Single-precision values carried as their IEEE-754 bit patterns.
//!
//! A value is the `u32` pattern of an `f32`: bit 31 is the sign, bits 30..23
//! the exponent and bits 22..0 the mantissa. For patterns that are not NaN the
//! represented reals are ordered by the magnitude bits, reversed when the sign
//! is set; both zeros represent the same real.
//!
//! That these spec functions order patterns as IEEE-754 arithmetic orders the
//! values they stand for is not proved here: nothing in Verus models `f32`. It
//! is checked by running the comparisons against `f32`'s own on sample values
//! (zeros, infinities, NaNs, subnormals and ordinary values of both signs).

use vstd::prelude::*;

verus! {

/// The pattern with only the sign bit set.
pub const SIGN_BIT: u32 = 0x8000_0000;

/// The magnitude pattern of an infinity.
pub const INFINITY_MAGNITUDE: u32 = 0x7f80_0000;

/// The pattern of positive zero.
pub const POSITIVE_ZERO: u32 = 0;

/// The pattern of negative infinity.
pub const NEGATIVE_INFINITY: u32 = 0xff80_0000;

/// The pattern of the single-precision value nearest to `1e-6`.
pub const ONE_MILLIONTH: u32 = 0x3586_37bd;

/// The bits below the sign bit.
pub open spec fn magnitude(b: u32) -> int {
    (b as int) % (SIGN_BIT as int)
}

/// Whether the pattern is a NaN: all exponent bits set and a nonzero mantissa.
pub open spec fn is_nan(b: u32) -> bool {
    magnitude(b) > INFINITY_MAGNITUDE as int
}

/// Whether the pattern is a finite value: not all exponent bits set.
pub open spec fn is_finite(b: u32) -> bool {
    magnitude(b) < INFINITY_MAGNITUDE as int
}

/// An integer that orders the non-NaN patterns as the reals they represent,
/// with both zeros mapped to the same integer.
pub open spec fn value_key(b: u32) -> int {
    if b < SIGN_BIT {
        b as int
    } else {
        -magnitude(b)
    }
}

/// The `>` comparison of two single-precision values: false when either is NaN.
pub open spec fn float_gt(a: u32, b: u32) -> bool {
    !is_nan(a) && !is_nan(b) && value_key(a) > value_key(b)
}

/// The `<=` comparison of two single-precision values: false when either is NaN.
pub open spec fn float_le(a: u32, b: u32) -> bool {
    !is_nan(a) && !is_nan(b) && value_key(a) <= value_key(b)
}

/// The `<` comparison of two single-precision values.
pub open spec fn float_lt(a: u32, b: u32) -> bool {
    float_gt(b, a)
}

/// An integer that orders all patterns as the IEEE-754 total order does:
/// negative NaNs, negative infinity, negative values, negative zero, positive
/// zero, positive values, positive infinity, positive NaNs.
pub open spec fn total_key(b: u32) -> int {
    if b < SIGN_BIT {
        b as int
    } else {
        -magnitude(b) - 1
    }
}

/// Whether the pattern is a finite value.
pub fn bits_is_finite(b: u32) -> (r: bool)
    ensures
        r == is_finite(b),
{
    let m: u32 = if b >= SIGN_BIT { b - SIGN_BIT } else { b };
    m < INFINITY_MAGNITUDE
}

/// Whether the pattern is a NaN.
pub fn bits_is_nan(b: u32) -> (r: bool)
    ensures
        r == is_nan(b),
{
    let m: u32 = if b >= SIGN_BIT { b - SIGN_BIT } else { b };
    m > INFINITY_MAGNITUDE
}

/// The integer `value_key` of the pattern.
pub fn bits_value_key(b: u32) -> (r: i64)
    ensures
        r == value_key(b),
{
    if b < SIGN_BIT {
        b as i64
    } else {
        -((b - SIGN_BIT) as i64)
    }
}

/// The integer `total_key` of the pattern.
pub fn bits_total_key(b: u32) -> (r: i64)
    ensures
        r == total_key(b),
{
    if b < SIGN_BIT {
        b as i64
    } else {
        -((b - SIGN_BIT) as i64) - 1
    }
}

/// `a > b` on single-precision values.
pub fn bits_gt(a: u32, b: u32) -> (r: bool)
    ensures
        r == float_gt(a, b),
{
    if bits_is_nan(a) || bits_is_nan(b) {
        false
    } else {
        bits_value_key(a) > bits_value_key(b)
    }
}

/// `a <= b` on single-precision values.
pub fn bits_le(a: u32, b: u32) -> (r: bool)
    ensures
        r == float_le(a, b),
{
    if bits_is_nan(a) || bits_is_nan(b) {
        false
    } else {
        bits_value_key(a) <= bits_value_key(b)
    }
}

/// `a < b` on single-precision values.
pub fn bits_lt(a: u32, b: u32) -> (r: bool)
    ensures
        r == float_lt(a, b),
{
    bits_gt(b, a)
}

/// The `>` comparison is a strict order on the patterns it relates:
/// it is irreflexive and transitive, and a value beyond one that is beyond a
/// third is beyond the third.
pub proof fn lemma_gt_strict_order(a: u32, b: u32, c: u32)
    ensures
        !float_gt(a, a),
        float_gt(a, b) && float_gt(b, c) ==> float_gt(a, c),
        float_gt(a, b) ==> !float_gt(b, a),
{
}

/// Two non-NaN values are comparable: one is greater or they are equal as reals.
pub proof fn lemma_gt_total_on_numbers(a: u32, b: u32)
    requires
        !is_nan(a),
        !is_nan(b),
    ensures
        float_gt(a, b) || float_gt(b, a) || value_key(a) == value_key(b),
{
}

/// The comparisons follow IEEE-754 on the bit layout: a NaN (all exponent bits
/// and some mantissa bit set) compares false with everything; both zeros are
/// equal; a pattern with the sign bit clear is above every pattern with it set
/// unless both are zeros; among non-negative patterns a larger pattern is a
/// larger value and among negative ones a larger magnitude is a smaller value;
/// `<=` is "not NaN and not `>`"; `<` is `>` reversed; and every pattern is
/// exactly one of finite, infinite or NaN.
pub proof fn lemma_comparison_rules(a: u32, b: u32)
    ensures
        is_nan(a) ==> !float_gt(a, b) && !float_gt(b, a) && !float_le(a, b) && !float_le(b, a),
        !float_gt(SIGN_BIT, POSITIVE_ZERO) && !float_gt(POSITIVE_ZERO, SIGN_BIT),
        float_le(SIGN_BIT, POSITIVE_ZERO) && float_le(POSITIVE_ZERO, SIGN_BIT),
        (!is_nan(a) && !is_nan(b) && a < SIGN_BIT && b < SIGN_BIT) ==> (float_gt(a, b) <==> a > b),
        (!is_nan(a) && !is_nan(b) && a >= SIGN_BIT && b >= SIGN_BIT) ==> (float_gt(a, b) <==> a < b),
        (!is_nan(a) && !is_nan(b) && a < SIGN_BIT && b >= SIGN_BIT) ==> (float_gt(a, b) <==> !(a == 0 && b
            == SIGN_BIT)),
        float_le(a, b) <==> (!is_nan(a) && !is_nan(b) && !float_gt(a, b)),
        float_lt(a, b) <==> float_gt(b, a),
        is_finite(a) <==> (a % SIGN_BIT) < INFINITY_MAGNITUDE,
        is_nan(a) <==> (a % SIGN_BIT) > INFINITY_MAGNITUDE,
        (is_finite(a) as int) + (is_nan(a) as int) + ((a % SIGN_BIT == INFINITY_MAGNITUDE) as int) == 1,
        float_gt(NEGATIVE_INFINITY, a) == false,
        !is_nan(a) && a != NEGATIVE_INFINITY ==> float_gt(a, NEGATIVE_INFINITY),
{
}

/// The total order places, from the bottom, negative NaNs, negative infinity,
/// negative values, negative zero, then positive zero, positive values, positive
/// infinity and positive NaNs; on patterns that are not NaN and not zeros of
/// opposite sign it agrees with `>`.
pub proof fn lemma_total_order_rules(a: u32, b: u32)
    ensures
        total_key(SIGN_BIT) < total_key(POSITIVE_ZERO),
        total_key(a) == total_key(b) ==> a == b,
        a < SIGN_BIT ==> total_key(a) >= 0,
        a >= SIGN_BIT ==> total_key(a) < 0,
        (a < SIGN_BIT && b < SIGN_BIT) ==> (total_key(a) > total_key(b) <==> a > b),
        (a >= SIGN_BIT && b >= SIGN_BIT) ==> (total_key(a) > total_key(b) <==> a < b),
        (!is_nan(a) && !is_nan(b) && !(value_key(a) == 0 && value_key(b) == 0)) ==> (float_gt(a, b)
            <==> total_key(a) > total_key(b)),
{
}

} // verus!
