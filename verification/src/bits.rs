//! Numeric model of coordinates.
//!
//! A coordinate is stored as the raw bit pattern of an IEEE-754
//! double-precision value.  For finite values the numeric order is the
//! sign-magnitude order of the bit pattern, so finiteness tests and
//! comparisons are plain integer computations here.  Both zeroes (the bit
//! patterns with an all-zero magnitude) denote the same numeric value.

use vstd::prelude::*;

verus! {

/// The sign bit of a double-precision bit pattern.
pub const SIGN_MASK: u64 = 0x8000_0000_0000_0000;

/// The magnitude (exponent and mantissa) of a double-precision bit pattern.
pub const MAG_MASK: u64 = 0x7fff_ffff_ffff_ffff;

/// The exponent field of a double-precision bit pattern; all ones means
/// an infinity or a not-a-number value.
pub const EXP_MASK: u64 = 0x7ff0_0000_0000_0000;

/// The magnitude of a bit pattern: everything but the sign.
pub open spec fn mag_of(b: u64) -> u64 {
    b & MAG_MASK
}

/// Whether the sign bit of a bit pattern is set.
pub open spec fn sign_of(b: u64) -> bool {
    b & SIGN_MASK == SIGN_MASK
}

/// Whether a bit pattern denotes a finite numeric value (its exponent
/// field is not all ones).
pub open spec fn finite_bits(b: u64) -> bool {
    b & EXP_MASK != EXP_MASK
}

/// The ordering key of a finite double-precision value: zero for both
/// zeroes, the magnitude for positive values, and the negated magnitude
/// for negative values.  Numeric order of finite values is integer order
/// of this key.
pub open spec fn key_of(b: u64) -> int {
    if mag_of(b) == 0 {
        0
    } else if sign_of(b) {
        -(mag_of(b) as int)
    } else {
        mag_of(b) as int
    }
}

/// Numeric "less than or equal" on finite bit patterns.
pub open spec fn le_bits(a: u64, b: u64) -> bool {
    key_of(a) <= key_of(b)
}

/// Numeric equality on finite bit patterns (both zeroes are equal).
pub open spec fn eq_bits(a: u64, b: u64) -> bool {
    key_of(a) == key_of(b)
}

/// Numeric "strictly less than" on finite bit patterns.
pub open spec fn lt_bits(a: u64, b: u64) -> bool {
    key_of(a) < key_of(b)
}

/// The numerically larger of two finite bit patterns, preferring the
/// first argument when the values are equal.
pub open spec fn max_spec(a: u64, b: u64) -> u64 {
    if le_bits(b, a) {
        a
    } else {
        b
    }
}

/// The numerically smaller of two finite bit patterns, preferring the
/// first argument when the values are equal.
pub open spec fn min_spec(a: u64, b: u64) -> u64 {
    if le_bits(a, b) {
        a
    } else {
        b
    }
}

/// Tests whether a bit pattern denotes a finite numeric value.
pub fn is_finite(b: u64) -> (r: bool)
    ensures
        r == finite_bits(b),
{
    b & EXP_MASK != EXP_MASK
}

/// Numeric "less than or equal" of two finite bit patterns.
pub fn le(a: u64, b: u64) -> (r: bool)
    ensures
        r == le_bits(a, b),
{
    let ma: u64 = a & MAG_MASK;
    let mb: u64 = b & MAG_MASK;
    let na: bool = (a & SIGN_MASK == SIGN_MASK) && ma != 0;
    let nb: bool = (b & SIGN_MASK == SIGN_MASK) && mb != 0;
    if na && nb {
        mb <= ma
    } else if na {
        true
    } else if nb {
        false
    } else {
        ma <= mb
    }
}

/// Numeric equality of two finite bit patterns.
pub fn eq_value(a: u64, b: u64) -> (r: bool)
    ensures
        r == eq_bits(a, b),
{
    let ma: u64 = a & MAG_MASK;
    let mb: u64 = b & MAG_MASK;
    if ma == 0 && mb == 0 {
        true
    } else {
        let sa: bool = a & SIGN_MASK == SIGN_MASK;
        let sb: bool = b & SIGN_MASK == SIGN_MASK;
        ma == mb && sa == sb && ma != 0
    }
}

/// The numerically larger of two finite bit patterns.
pub fn max_bits(a: u64, b: u64) -> (r: u64)
    ensures
        r == max_spec(a, b),
        le_bits(a, r) && le_bits(b, r),
        r == a || r == b,
{
    if le(b, a) {
        a
    } else {
        b
    }
}

/// The numerically smaller of two finite bit patterns.
pub fn min_bits(a: u64, b: u64) -> (r: u64)
    ensures
        r == min_spec(a, b),
        le_bits(r, a) && le_bits(r, b),
        r == a || r == b,
{
    if le(a, b) {
        a
    } else {
        b
    }
}

/// The all-zero bit pattern denotes the value zero: finite, with the
/// zero ordering key.
pub proof fn lemma_zero_key()
    ensures
        finite_bits(0),
        key_of(0) == 0,
        mag_of(0) == 0,
{
    assert(0u64 & 0x7ff0_0000_0000_0000u64 != 0x7ff0_0000_0000_0000u64) by (bit_vector);
    assert(0u64 & 0x7fff_ffff_ffff_ffffu64 == 0u64) by (bit_vector);
}

/// Numeric order of finite bit patterns is total.
pub proof fn lemma_le_total(a: u64, b: u64)
    ensures
        le_bits(a, b) || le_bits(b, a),
        le_bits(a, b) && le_bits(b, a) ==> eq_bits(a, b),
{
}

/// Numeric order of finite bit patterns is transitive.
pub proof fn lemma_le_trans(a: u64, b: u64, c: u64)
    requires
        le_bits(a, b),
        le_bits(b, c),
    ensures
        le_bits(a, c),
{
}

} // verus!
