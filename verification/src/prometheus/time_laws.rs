//! The whole numbers that numbers are cut to, and the instants and lengths of time
//! that texts denote.

use vstd::arithmetic::power2::{
    lemma2_to64_rest, lemma_pow2_adds, lemma_pow2_pos, lemma_pow2_strictly_increases, pow2,
};
use vstd::prelude::*;
use crate::calendar::rfc3339_micros;
use crate::double::{is_finite_bits, is_nan_bits, negative};
use crate::double_laws::{exponent, fraction, law_zero_and_one, number, signed_units, units};
use crate::prometheus::error::bad_data;
use crate::prometheus::histogram::NumberReader;
use crate::prometheus::numbers::{Arithmetic, MILLION};
use crate::prometheus::plan::{count_of, whole_part, BinOp};
use crate::prometheus::quantile_laws::exact;
use crate::prometheus::times::{
    as_integer, duration_of, timestamp_of, unit_us, DAY_US, HOUR_US, MINUTE_US,
};
use crate::reals::{
    lemma_div_mul, lemma_mul_at_most, lemma_mul_cancel, lemma_mul_less, lemma_mul_terms,
};
use crate::text::trimmed;

verus! {

// ---------- whole parts ----------

proof fn lemma_whole_units(bits: u64)
    requires
        bits < 0x7FF0_0000_0000_0000,
    ensures
        whole_part(bits) as int * (pow2(1074) as int) <= units(bits),
        units(bits) < (whole_part(bits) as int + 1) * (pow2(1074) as int),
{
    let h = 0x10_0000_0000_0000int;
    let e = exponent(bits);
    let f = fraction(bits);
    let s = h + f;
    let u = pow2(1074) as int;
    lemma_pow2_pos(1074);
    assert(e == bits as int / h);
    assert(f == bits as int % h);
    lemma2_to64_rest();
    assert(pow2(52) == h);
    if e < 1023 {
        let k = if e == 0 {
            1
        } else {
            e
        };
        let p = pow2((k - 1) as nat) as int;
        lemma_pow2_pos((k - 1) as nat);
        lemma_pow2_adds(53, (k - 1) as nat);
        assert(pow2(53) == 2 * h);
        if 53 + (k - 1) < 1074 {
            lemma_pow2_strictly_increases((53 + (k - 1)) as nat, 1074);
        }
        let q = pow2((53 + (k - 1)) as nat) as int;
        assert(q == 2 * h * p) by (nonlinear_arith)
            requires
                q == pow2(53) as int * p,
                pow2(53) as int == 2 * h,
        ;
        assert(s * p < 2 * h * p) by (nonlinear_arith)
            requires
                s < 2 * h,
                p > 0,
        ;
        assert(0 <= s * p) by (nonlinear_arith)
            requires
                s >= 0,
                p > 0,
        ;
        if e == 0 {
            lemma_pow2_adds(52, 1022);
            lemma_pow2_pos(1022);
            assert(h <= u) by (nonlinear_arith)
                requires
                    u == h * (pow2(1022) as int),
                    pow2(1022) as int >= 1,
                    h > 0,
            ;
        }
        assert(q <= u);
        assert(units(bits) < u);
        assert(whole_part(bits) == 0);
        assert((0 + 1) * u == u && 0 * u == 0);
    } else if e <= 1075 {
        let d = pow2((1075 - e) as nat) as int;
        let p = pow2((e - 1) as nat) as int;
        lemma_pow2_pos((1075 - e) as nat);
        lemma_pow2_pos((e - 1) as nat);
        lemma_pow2_adds((1075 - e) as nat, (e - 1) as nat);
        assert(d * p == u);
        let w = s / d;
        let r = s % d;
        assert(s == w * d + r && 0 <= r < d) by {
            vstd::arithmetic::div_mod::lemma_fundamental_div_mod(s, d);
            vstd::arithmetic::div_mod::lemma_mod_bound(s, d);
            assert(w * d == d * w) by (nonlinear_arith);
        }
        assert(w >= 0) by {
            vstd::arithmetic::div_mod::lemma_div_pos_is_pos(s, d);
        }
        assert(w * u <= s * p && s * p < (w + 1) * u) by (nonlinear_arith)
            requires
                d * p == u,
                s == w * d + r,
                0 <= r < d,
                p > 0,
        ;
    } else {
        let d = pow2((e - 1075) as nat) as int;
        lemma_pow2_pos((e - 1075) as nat);
        lemma_pow2_adds((e - 1075) as nat, 1074);
        let p = pow2((e - 1) as nat) as int;
        assert(p == d * u);
        assert((s * d) * u == s * (d * u)) by (nonlinear_arith);
        assert(s * d >= 0) by (nonlinear_arith)
            requires
                s >= 0,
                d > 0,
        ;
        assert((s * d + 1) * u == (s * d) * u + u) by (nonlinear_arith);
    }
}

/// The whole part of a number that is not negative is the greatest whole number that
/// is not greater.
pub proof fn law_whole_parts(bits: u64)
    requires
        bits < 0x7FF0_0000_0000_0000,
    ensures
        (whole_part(bits) as int) as real <= number(bits),
        number(bits) < (whole_part(bits) as int + 1) as real,
{
    lemma_whole_units(bits);
    lemma_pow2_pos(1074);
    let u = (pow2(1074) as int) as real;
    let n = units(bits) as real;
    let w = (whole_part(bits) as int) as real;
    lemma_div_mul(n, u);
    let x = n / u;
    assert(w * u <= n && n < (w + 1real) * u) by {
        let wi = whole_part(bits) as int;
        let ui = pow2(1074) as int;
        assert((wi * ui) as real == w * u) by (nonlinear_arith)
            requires
                w == wi as real,
                u == ui as real,
        ;
        assert(((wi + 1) * ui) as real == (w + 1real) * u) by (nonlinear_arith)
            requires
                w == wi as real,
                u == ui as real,
        ;
    }
    if x < w {
        lemma_mul_less(x, w, u);
    }
    if x >= w + 1real {
        lemma_mul_at_most(w + 1real, x, u);
    }
}

/// The count of `topk` and `bottomk` is the whole part of their number, as far as it
/// fits; none where the number is not positive or not finite.
pub proof fn law_counts_are_whole_parts(bits: u64)
    ensures
        !is_finite_bits(bits) ==> count_of(bits) == 0,
        bits >= 0x8000_0000_0000_0000 ==> count_of(bits) == 0,
        bits < 0x7FF0_0000_0000_0000 ==> {
            ||| count_of(bits) as real <= number(bits) && number(bits) < (count_of(bits) + 1) as real
            ||| count_of(bits) == usize::MAX && number(bits) >= (usize::MAX + 1) as real
        },
{
    if bits < 0x7FF0_0000_0000_0000 {
        law_whole_parts(bits);
        if bits == 0 {
            law_zero_and_one();
        }
    }
}

/// A number is cut to the whole number next to it towards zero, as far as 64 bits
/// hold it.
pub proof fn law_numbers_are_cut_towards_zero(bits: u64)
    ensures
        is_nan_bits(bits) ==> as_integer(bits) == 0,
        bits < 0x7FF0_0000_0000_0000 && number(bits) < (i64::MAX as int + 1) as real ==> {
            &&& as_integer(bits) as real <= number(bits)
            &&& number(bits) < (as_integer(bits) + 1) as real
            &&& as_integer(bits) >= 0
        },
        0x8000_0000_0000_0000 <= bits < 0xFFF0_0000_0000_0000 && number(bits) > (-(i64::MAX as int)
            - 1) as real ==> {
            &&& number(bits) > (as_integer(bits) - 1) as real
            &&& number(bits) <= as_integer(bits) as real
            &&& as_integer(bits) <= 0
        },
        bits < 0x7FF0_0000_0000_0000 && number(bits) >= (i64::MAX as int + 1) as real
            ==> as_integer(bits) == i64::MAX,
        bits == 0x7FF0_0000_0000_0000 ==> as_integer(bits) == i64::MAX,
        bits == 0xFFF0_0000_0000_0000 ==> as_integer(bits) == i64::MIN,
{
    if bits < 0x7FF0_0000_0000_0000 {
        law_whole_parts(bits);
    }
    if 0x8000_0000_0000_0000 <= bits < 0xFFF0_0000_0000_0000 {
        let size = (bits - 0x8000_0000_0000_0000) as u64;
        law_whole_parts(size);
        assert(units(bits) == units(size));
        lemma_pow2_pos(1074);
        let u = (pow2(1074) as int) as real;
        let n = units(size) as real;
        lemma_div_mul(n, u);
        lemma_div_mul(-n, u);
        lemma_mul_terms(0real, n / u, u);
        lemma_mul_cancel((-n) / u, 0real - n / u, u);
        assert(number(bits) == -number(size));
    }
}

// ---------- units ----------

proof fn lemma_number_of(bits: u64, n: int, k: nat)
    requires
        bits < 0x7FF0_0000_0000_0000,
        exponent(bits) >= 1,
        k + (exponent(bits) - 1) == 1074,
        0x10_0000_0000_0000 + fraction(bits) == n * (pow2(k) as int),
    ensures
        number(bits) == n as real,
{
    let p = pow2((exponent(bits) - 1) as nat) as int;
    let q = pow2(k) as int;
    let u = pow2(1074) as int;
    lemma_pow2_adds(k, (exponent(bits) - 1) as nat);
    lemma_pow2_pos(1074);
    assert((n * q) * p == n * (q * p)) by (nonlinear_arith);
    assert(units(bits) == n * u);
    let d = u as real;
    assert((n * u) as real == n as real * d) by (nonlinear_arith)
        requires
            d == u as real,
    ;
    lemma_div_mul(signed_units(bits) as real, d);
    lemma_mul_cancel(signed_units(bits) as real / d, n as real, d);
}

/// A second is a million microseconds, a minute 60 seconds, an hour 60 minutes and a
/// day 24 hours; there are no other units.
pub proof fn law_units(unit: char)
    ensures
        unit_us('s') is Some && number(unit_us('s')->0) == 1_000_000real,
        unit_us('m') is Some && number(unit_us('m')->0) == 60_000_000real,
        unit_us('h') is Some && number(unit_us('h')->0) == 3_600_000_000real,
        unit_us('d') is Some && number(unit_us('d')->0) == 86_400_000_000real,
        unit != 's' && unit != 'm' && unit != 'h' && unit != 'd' ==> unit_us(unit) is None,
{
    lemma2_to64_rest();
    vstd::arithmetic::power2::lemma2_to64();
    lemma_number_of(MILLION, 1_000_000, 33);
    lemma_number_of(MINUTE_US, 60_000_000, 27);
    lemma_number_of(HOUR_US, 3_600_000_000, 21);
    lemma_number_of(DAY_US, 86_400_000_000, 16);
}

/// A text that is a number denotes that many seconds after the epoch; any other the
/// instant that RFC 3339 reads from it, or none.
pub proof fn law_timestamps<
    C: Fn(BinOp, u64, u64) -> u64,
    W: Fn(i128) -> u64,
    R: Fn(&str) -> Option<u64>,
>(ar: Arithmetic<C, W>, reader: NumberReader<R>, s: Seq<char>, n: int)
    ensures
        reader.number(s) is Some && exact(ar, BinOp::Mul, reader.number(s)->0, MILLION) && number(
            reader.number(s)->0,
        ) * 1_000_000real == n as real && i64::MIN < n <= i64::MAX ==> timestamp_of(ar, reader, s)
            == Ok::<i64, crate::prometheus::error::ErrorView>(n as i64),
        reader.number(s) is None && rfc3339_micros(s) is Some ==> timestamp_of(ar, reader, s) == Ok::<
            i64,
            crate::prometheus::error::ErrorView,
        >(rfc3339_micros(s)->0),
        reader.number(s) is None && rfc3339_micros(s) is None ==> timestamp_of(ar, reader, s) == Err::<
            i64,
            crate::prometheus::error::ErrorView,
        >(bad_data("invalid timestamp: "@ + s)),
{
    law_units('s');
    if reader.number(s) is Some && exact(ar, BinOp::Mul, reader.number(s)->0, MILLION) && number(
        reader.number(s)->0,
    ) * 1_000_000real == n as real && i64::MIN < n <= i64::MAX {
        lemma_cut_whole(ar.result(BinOp::Mul, reader.number(s)->0, MILLION), n);
    }
}

proof fn lemma_cut_whole(bits: u64, n: int)
    requires
        is_finite_bits(bits),
        number(bits) == n as real,
        i64::MIN < n <= i64::MAX,
    ensures
        as_integer(bits) == n,
{
    law_numbers_are_cut_towards_zero(bits);
}

/// A text that is a number and a unit, with or without white space around it,
/// denotes that many of the unit.
pub proof fn law_durations<
    C: Fn(BinOp, u64, u64) -> u64,
    W: Fn(i128) -> u64,
    R: Fn(&str) -> Option<u64>,
>(ar: Arithmetic<C, W>, reader: NumberReader<R>, s: Seq<char>, n: int)
    requires
        i64::MIN < n <= i64::MAX,
    ensures
        reader.number(s) is Some && exact(ar, BinOp::Mul, reader.number(s)->0, MILLION) && number(
            reader.number(s)->0,
        ) * 1_000_000real == n as real ==> duration_of(ar, reader, s) == Ok::<
            i64,
            crate::prometheus::error::ErrorView,
        >(n as i64),
        ({
            let t = trimmed(s);
            let count = reader.number(t.drop_last());
            reader.number(s) is None && t.len() > 0 && count is Some && unit_us(t.last()) is Some
                && exact(ar, BinOp::Mul, count->0, unit_us(t.last())->0) && number(count->0)
                * number(unit_us(t.last())->0) == n as real ==> duration_of(ar, reader, s) == Ok::<
                i64,
                crate::prometheus::error::ErrorView,
            >(n as i64)
        }),
{
    law_units('s');
    let t = trimmed(s);
    let count = reader.number(t.drop_last());
    if reader.number(s) is Some && exact(ar, BinOp::Mul, reader.number(s)->0, MILLION) && number(
        reader.number(s)->0,
    ) * 1_000_000real == n as real {
        lemma_cut_whole(ar.result(BinOp::Mul, reader.number(s)->0, MILLION), n);
    }
    if reader.number(s) is None && t.len() > 0 && count is Some && unit_us(t.last()) is Some && exact(
        ar,
        BinOp::Mul,
        count->0,
        unit_us(t.last())->0,
    ) && number(count->0) * number(unit_us(t.last())->0) == n as real {
        lemma_cut_whole(ar.result(BinOp::Mul, count->0, unit_us(t.last())->0), n);
    }
}

} // verus!
