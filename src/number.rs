//! Numbers are held as the bit pattern of an IEEE-754 double. A NaN pattern
//! stands for a missing value; the order of doubles is read off an integer key.
use vstd::prelude::*;

verus! {

/// The sign bit of a double.
pub const SIGN_BIT: u64 = 0x8000_0000_0000_0000;

/// The bits of the exponent of a double.
pub const EXPONENT_BITS: u64 = 0x7ff0_0000_0000_0000;

/// The bits of the fraction of a double.
pub const FRACTION_BITS: u64 = 0x000f_ffff_ffff_ffff;

/// The quiet NaN that stands for a missing number.
pub const NULL_NUMBER: u64 = 0x7ff8_0000_0000_0000;

/// The bit pattern is a NaN: all exponent bits set and a fraction other than zero.
pub open spec fn is_nan_bits(b: u64) -> bool {
    (b & EXPONENT_BITS) == EXPONENT_BITS && (b & FRACTION_BITS) != 0
}

/// An integer key whose order is the order of doubles: the two zeros share
/// one key, and every NaN has the largest key.
pub open spec fn num_key(b: u64) -> u64 {
    if is_nan_bits(b) {
        u64::MAX
    } else if b == SIGN_BIT {
        SIGN_BIT
    } else if (b & SIGN_BIT) != 0 {
        !b
    } else {
        b | SIGN_BIT
    }
}

/// Whether the bit pattern is a NaN.
pub fn is_nan(b: u64) -> (r: bool)
    ensures
        r == is_nan_bits(b),
{
    (b & EXPONENT_BITS) == EXPONENT_BITS && (b & FRACTION_BITS) != 0
}

/// The order key of a double given by its bits.
pub fn number_key(b: u64) -> (r: u64)
    ensures
        r == num_key(b),
{
    if is_nan(b) {
        u64::MAX
    } else if b == SIGN_BIT {
        SIGN_BIT
    } else if (b & SIGN_BIT) != 0 {
        !b
    } else {
        b | SIGN_BIT
    }
}

/// The missing-number pattern is a NaN.
pub proof fn lemma_null_number_is_nan()
    ensures
        is_nan_bits(NULL_NUMBER),
{
    assert((0x7ff8_0000_0000_0000u64 & 0x7ff0_0000_0000_0000u64) == 0x7ff0_0000_0000_0000u64)
        by (bit_vector);
    assert((0x7ff8_0000_0000_0000u64 & 0x000f_ffff_ffff_ffffu64) != 0) by (bit_vector);
}

} // verus!
