//! The numbers that bit patterns stand for.
//!
//! A pattern is a sign, eleven bits of exponent and 52 bits of fraction. It stands
//! for `(2^52 + fraction) * 2^(exponent - 1075)`, with the sign; where the exponent
//! is 0 it stands for `fraction * 2^-1074`. The greatest exponent is that of the
//! infinities and the NaNs.

use vstd::arithmetic::power2::{
    lemma_pow2_adds, lemma_pow2_pos, lemma_pow2_strictly_increases, lemma_pow2_unfold, pow2,
};
use vstd::prelude::*;
use crate::double::{
    at_most_bits, equal_bits, is_finite_bits, is_infinite_bits, is_nan_bits, less_bits, ONE, ZERO,
};

verus! {

/// The exponent bits.
pub open spec fn exponent(bits: u64) -> int {
    (bits as int / 0x10_0000_0000_0000) % 0x800
}

/// The fraction bits.
pub open spec fn fraction(bits: u64) -> int {
    bits as int % 0x10_0000_0000_0000
}

/// The size of a finite number in units of 2 to the power -1074, the least that
/// there is.
pub open spec fn units(bits: u64) -> int {
    if exponent(bits) == 0 {
        fraction(bits)
    } else {
        (0x10_0000_0000_0000 + fraction(bits)) * (pow2((exponent(bits) - 1) as nat) as int)
    }
}

/// The units with the sign.
pub open spec fn signed_units(bits: u64) -> int {
    if bits < 0x8000_0000_0000_0000 {
        units(bits)
    } else {
        -units(bits)
    }
}

/// The number that finite bits stand for.
pub open spec fn number(bits: u64) -> real {
    signed_units(bits) as real / (pow2(1074) as int) as real
}

proof fn lemma_units_grow(a: u64, b: u64)
    requires
        a < b < 0x7FF0_0000_0000_0000,
    ensures
        0 <= units(a) < units(b),
{
    let h = 0x10_0000_0000_0000int;
    let (ea, eb) = (exponent(a), exponent(b));
    let (fa, fb) = (fraction(a), fraction(b));
    assert(ea == a as int / h && eb == b as int / h);
    assert(ea <= eb);
    if ea == 0 && eb == 0 {
    } else if ea == eb {
        let p = pow2((ea - 1) as nat) as int;
        lemma_pow2_pos((ea - 1) as nat);
        assert(fa < fb);
        assert(0 <= (h + fa) * p < (h + fb) * p) by (nonlinear_arith)
            requires
                0 <= fa < fb,
                p > 0,
                h > 0,
        ;
    } else {
        let q = pow2((eb - 1) as nat) as int;
        lemma_pow2_pos((eb - 1) as nat);
        assert(units(b) >= h * q) by (nonlinear_arith)
            requires
                units(b) == (h + fb) * q,
                fb >= 0,
                q > 0,
        ;
        if ea == 0 {
            assert(h * q >= h) by (nonlinear_arith)
                requires
                    q >= 1,
                    h > 0,
            ;
        } else {
            let p = pow2((ea - 1) as nat) as int;
            lemma_pow2_pos((ea - 1) as nat);
            lemma_pow2_unfold(ea as nat);
            if ea < eb - 1 {
                lemma_pow2_strictly_increases(ea as nat, (eb - 1) as nat);
            }
            assert(q >= 2 * p);
            assert(0 <= (h + fa) * p < h * q) by (nonlinear_arith)
                requires
                    0 <= fa < h,
                    p > 0,
                    q >= 2 * p,
                    h > 0,
            ;
        }
    }
}

proof fn lemma_no_units(bits: u64)
    requires
        bits == 0 || bits == 0x8000_0000_0000_0000,
    ensures
        units(bits) == 0,
{
}

proof fn lemma_sign_aside(bits: u64)
    requires
        bits >= 0x8000_0000_0000_0000,
    ensures
        units(bits) == units((bits - 0x8000_0000_0000_0000) as u64),
{
}

/// Bits are finite where their exponent is not the greatest, infinite where it is
/// and the fraction is 0, and a NaN otherwise.
pub proof fn law_kinds_of_bits(bits: u64)
    ensures
        is_finite_bits(bits) <==> exponent(bits) < 2047,
        is_infinite_bits(bits) <==> exponent(bits) == 2047 && fraction(bits) == 0,
        is_nan_bits(bits) <==> exponent(bits) == 2047 && fraction(bits) != 0,
{
}

proof fn lemma_units_order(a: u64, b: u64)
    requires
        is_finite_bits(a),
        is_finite_bits(b),
    ensures
        less_bits(a, b) <==> signed_units(a) < signed_units(b),
        equal_bits(a, b) <==> signed_units(a) == signed_units(b),
{
    let s = 0x8000_0000_0000_0000u64;
    let x = if a < s {
        a
    } else {
        (a - s) as u64
    };
    let y = if b < s {
        b
    } else {
        (b - s) as u64
    };
    if a >= s {
        lemma_sign_aside(a);
    }
    if b >= s {
        lemma_sign_aside(b);
    }
    lemma_no_units(0);
    if x < y {
        lemma_units_grow(x, y);
    }
    if y < x {
        lemma_units_grow(y, x);
    }
    if 0 < x {
        lemma_units_grow(0, x);
    }
    if 0 < y {
        lemma_units_grow(0, y);
    }
}

/// Finite bits compare as the numbers that they stand for.
pub proof fn law_bits_compare_as_numbers(a: u64, b: u64)
    requires
        is_finite_bits(a),
        is_finite_bits(b),
    ensures
        less_bits(a, b) <==> number(a) < number(b),
        equal_bits(a, b) <==> number(a) == number(b),
        at_most_bits(a, b) <==> number(a) <= number(b),
{
    lemma_units_order(a, b);
    lemma_pow2_pos(1074);
    let d = (pow2(1074) as int) as real;
    let x = signed_units(a) as real;
    let y = signed_units(b) as real;
    assert((x < y) == (x / d < y / d) && (x == y) == (x / d == y / d)) by (nonlinear_arith)
        requires
            d > 0real,
    ;
}

/// Infinity is greater than every number, negative infinity less, and a NaN
/// compares with nothing, itself included.
pub proof fn law_infinities_and_nans_compare(a: u64, b: u64)
    requires
        !is_finite_bits(a),
    ensures
        is_nan_bits(a) ==> !less_bits(a, b) && !less_bits(b, a) && !equal_bits(a, b)
            && !at_most_bits(a, b) && !at_most_bits(b, a),
        a == 0x7FF0_0000_0000_0000 && is_finite_bits(b) ==> less_bits(b, a) && at_most_bits(b, a)
            && !less_bits(a, b) && !at_most_bits(a, b) && !equal_bits(a, b),
        a == 0xFFF0_0000_0000_0000 && is_finite_bits(b) ==> less_bits(a, b) && at_most_bits(a, b)
            && !less_bits(b, a) && !at_most_bits(b, a) && !equal_bits(a, b),
        is_infinite_bits(a) ==> equal_bits(a, a) && at_most_bits(a, a) && !less_bits(a, a),
{
}

/// The bits of zero and of one stand for these numbers.
pub proof fn law_zero_and_one()
    ensures
        is_finite_bits(ZERO),
        is_finite_bits(ONE),
        number(ZERO) == 0real,
        number(ONE) == 1real,
{
    lemma_pow2_pos(1074);
    lemma_pow2_adds(52, 1022);
    vstd::arithmetic::power2::lemma2_to64();
    vstd::arithmetic::power2::lemma2_to64_rest();
    let d = (pow2(1074) as int) as real;
    assert(exponent(ONE) == 1023 && fraction(ONE) == 0);
    assert(pow2(52) == 0x10_0000_0000_0000);
    assert(units(ONE) == pow2(1074));
    assert(0real / d == 0real && d / d == 1real) by (nonlinear_arith)
        requires
            d > 0real,
    ;
}

} // verus!
