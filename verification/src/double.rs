//! Double-precision numbers carried as their IEEE 754 bit patterns.
//!
//! A sample's value is held as the 64 bits of a double. What the crate needs
//! to know of a value, whether it is finite and how it compares with another,
//! can be read off the bits with integer arithmetic: the low 63 bits are the
//! magnitude and grow with it, the top bit is the sign, and the magnitudes
//! above that of infinity are the NaNs.

use vstd::prelude::*;

verus! {

/// The top bit: set on negative numbers.
pub const SIGN: u64 = 0x8000_0000_0000_0000;

/// The magnitude of infinity.
pub const INFINITE: u64 = 0x7FF0_0000_0000_0000;

/// The bits of zero.
pub const ZERO: u64 = 0;

/// The bits of one.
pub const ONE: u64 = 0x3FF0_0000_0000_0000;

/// The number's magnitude bits.
pub open spec fn magnitude(bits: u64) -> int {
    if bits >= SIGN {
        bits - SIGN
    } else {
        bits as int
    }
}

/// Whether the sign bit is set.
pub open spec fn negative(bits: u64) -> bool {
    bits >= SIGN
}

/// Whether the bits are a NaN.
pub open spec fn is_nan_bits(bits: u64) -> bool {
    magnitude(bits) > INFINITE
}

/// Whether the bits are a number that is neither infinite nor a NaN.
pub open spec fn is_finite_bits(bits: u64) -> bool {
    magnitude(bits) < INFINITE
}

/// Whether the bits are positive or negative infinity.
pub open spec fn is_infinite_bits(bits: u64) -> bool {
    magnitude(bits) == INFINITE
}

/// Where a number that is not a NaN stands in the order of numbers. The two
/// zeros stand in the same place.
pub open spec fn place(bits: u64) -> int {
    if negative(bits) {
        -magnitude(bits)
    } else {
        magnitude(bits)
    }
}

/// `a < b` as numbers; false if either is a NaN.
pub open spec fn less_bits(a: u64, b: u64) -> bool {
    !is_nan_bits(a) && !is_nan_bits(b) && place(a) < place(b)
}

/// `a == b` as numbers; false if either is a NaN.
pub open spec fn equal_bits(a: u64, b: u64) -> bool {
    !is_nan_bits(a) && !is_nan_bits(b) && place(a) == place(b)
}

/// `a <= b` as numbers; false if either is a NaN.
pub open spec fn at_most_bits(a: u64, b: u64) -> bool {
    !is_nan_bits(a) && !is_nan_bits(b) && place(a) <= place(b)
}

fn magnitude_of(bits: u64) -> (r: u64)
    ensures
        r == magnitude(bits),
{
    if bits >= SIGN {
        bits - SIGN
    } else {
        bits
    }
}

/// Whether the sign bit is set.
pub fn is_negative(bits: u64) -> (r: bool)
    ensures
        r == negative(bits),
{
    bits >= SIGN
}

/// Whether the bits are a NaN.
pub fn is_nan(bits: u64) -> (r: bool)
    ensures
        r == is_nan_bits(bits),
{
    magnitude_of(bits) > INFINITE
}

/// Whether the bits are a finite number.
pub fn is_finite(bits: u64) -> (r: bool)
    ensures
        r == is_finite_bits(bits),
{
    magnitude_of(bits) < INFINITE
}

/// Whether the bits are an infinity.
pub fn is_infinite(bits: u64) -> (r: bool)
    ensures
        r == is_infinite_bits(bits),
{
    magnitude_of(bits) == INFINITE
}

/// `a < b` as numbers.
pub fn less(a: u64, b: u64) -> (r: bool)
    ensures
        r == less_bits(a, b),
{
    if is_nan(a) || is_nan(b) {
        false
    } else if a >= SIGN {
        if b >= SIGN {
            b < a
        } else {
            a > SIGN || b > 0
        }
    } else {
        b < SIGN && a < b
    }
}

/// `a == b` as numbers.
pub fn equal(a: u64, b: u64) -> (r: bool)
    ensures
        r == equal_bits(a, b),
{
    if is_nan(a) || is_nan(b) {
        false
    } else {
        a == b || (magnitude_of(a) == 0 && magnitude_of(b) == 0)
    }
}

/// `a <= b` as numbers.
pub fn at_most(a: u64, b: u64) -> (r: bool)
    ensures
        r == at_most_bits(a, b),
{
    less(a, b) || equal(a, b)
}

} // verus!
