//! Bit-level model of IEEE-754 double-precision values.
//!
//! Samples travel through the engine as the 64-bit pattern of a double.
//! Working on the pattern keeps every classification and comparison exact:
//! a value is a NaN, an infinity, or finite purely as a function of its
//! exponent and fraction fields.  Finite doubles are ordered by sign and
//! magnitude, which on the bit pattern is plain integer comparison with the
//! direction flipped for negative values.

use vstd::prelude::*;

verus! {

/// Bit pattern of the quiet NaN written into empty value slots.
pub const NAN_BITS: u64 = 0x7ff8_0000_0000_0000;

/// Exponent field of a double's bit pattern (11 bits).
pub open spec fn exp_field(b: u64) -> u64 {
    (b >> 52) & 0x7ff
}

/// Fraction field of a double's bit pattern (52 bits).
pub open spec fn frac_field(b: u64) -> u64 {
    b & 0xf_ffff_ffff_ffff
}

/// Sign bit of a double's bit pattern.
pub open spec fn sign_field(b: u64) -> u64 {
    b >> 63
}

/// The pattern encodes a NaN: exponent all ones, fraction non-zero.
pub open spec fn is_nan_bits(b: u64) -> bool {
    exp_field(b) == 0x7ff && frac_field(b) != 0
}

/// The pattern encodes a positive or negative infinity.
pub open spec fn is_inf_bits(b: u64) -> bool {
    exp_field(b) == 0x7ff && frac_field(b) == 0
}

/// The pattern encodes a finite double.
pub open spec fn is_finite_bits(b: u64) -> bool {
    exp_field(b) != 0x7ff
}

/// Strict order on the doubles encoded by `a` and `b`, both finite:
/// negatives before positives, and within one sign ordered by magnitude
/// (reversed for negatives).  On finite patterns this coincides with the
/// numeric order of the encoded doubles, with -0.0 ordered before +0.0.
pub open spec fn bits_lt(a: u64, b: u64) -> bool {
    if sign_field(a) != sign_field(b) {
        sign_field(a) == 1
    } else if sign_field(a) == 0 {
        a < b
    } else {
        a > b
    }
}

/// Non-strict version of `bits_lt`.
pub open spec fn bits_le(a: u64, b: u64) -> bool {
    a == b || bits_lt(a, b)
}

/// Tests whether a pattern encodes a NaN.
pub fn nan_bits(b: u64) -> (r: bool)
    ensures
        r == is_nan_bits(b),
{
    (b >> 52) & 0x7ff == 0x7ff && b & 0xf_ffff_ffff_ffff != 0
}

/// Tests whether a pattern encodes an infinity.
pub fn inf_bits(b: u64) -> (r: bool)
    ensures
        r == is_inf_bits(b),
{
    (b >> 52) & 0x7ff == 0x7ff && b & 0xf_ffff_ffff_ffff == 0
}

/// Tests whether a pattern encodes a finite double.
pub fn finite_bits(b: u64) -> (r: bool)
    ensures
        r == is_finite_bits(b),
{
    (b >> 52) & 0x7ff != 0x7ff
}

/// Compares two finite patterns in the order of the doubles they encode.
pub fn lt_bits(a: u64, b: u64) -> (r: bool)
    ensures
        r == bits_lt(a, b),
{
    let sa = a >> 63;
    let sb = b >> 63;
    if sa != sb {
        sa == 1
    } else if sa == 0 {
        a < b
    } else {
        a > b
    }
}

/// The empty-slot sentinel really is a NaN pattern.
pub proof fn lemma_nan_sentinel()
    ensures
        is_nan_bits(NAN_BITS),
{
    assert((0x7ff8_0000_0000_0000u64 >> 52) & 0x7ff == 0x7ff && 0x7ff8_0000_0000_0000u64
        & 0xf_ffff_ffff_ffff != 0) by (bit_vector);
}

/// The order on finite patterns is total: two patterns are equal, or one
/// is strictly below the other.
pub proof fn lemma_bits_order_total(a: u64, b: u64)
    ensures
        a == b || bits_lt(a, b) || bits_lt(b, a),
{
    assert(a >> 63 == 0 || a >> 63 == 1) by (bit_vector);
    assert(b >> 63 == 0 || b >> 63 == 1) by (bit_vector);
    if sign_field(a) == sign_field(b) && a != b {
        assert(a < b || b < a);
    }
}

} // verus!
