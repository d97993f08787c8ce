//! What a quantile is, in terms of the numbers that bits stand for.
//!
//! The arithmetic is the caller's, and may round. Where it does not, on the numbers
//! at hand, the quantile is the value that the bucket's bounds and counts give by
//! the rule of proportion.

use vstd::prelude::*;
use crate::double::{
    at_most_bits, is_finite_bits, is_infinite_bits, is_nan_bits, less_bits, ONE, ZERO,
};
use crate::double_laws::{law_bits_compare_as_numbers, law_zero_and_one, number};
use crate::prometheus::numbers::{first_where, last_where, quantile_of, Arithmetic};
use crate::prometheus::plan::BinOp;
use crate::reals::{
    lemma_div_mul, lemma_mul_at_most, lemma_mul_cancel, lemma_mul_less, lemma_mul_positive,
    lemma_mul_swap, lemma_mul_terms, lemma_mul_unit,
};

verus! {

/// What an arithmetic operator makes of two real numbers.
pub open spec fn real_result(op: BinOp, a: real, b: real) -> real {
    match op {
        BinOp::Add => a + b,
        BinOp::Sub => a - b,
        BinOp::Mul => a * b,
        BinOp::Div => a / b,
        _ => 0real,
    }
}

/// Whether the arithmetic gives the result of an operator on two numbers without
/// rounding it.
pub open spec fn exact<C: Fn(BinOp, u64, u64) -> u64, W: Fn(i128) -> u64>(
    ar: Arithmetic<C, W>,
    op: BinOp,
    a: u64,
    b: u64,
) -> bool {
    let r = ar.result(op, a, b);
    is_finite_bits(r) && number(r) == real_result(op, number(a), number(b))
}

/// The bound and the count before a bucket: those of the bucket before, or zeros.
pub open spec fn before(buckets: Seq<(u64, u64)>, i: int) -> (u64, u64) {
    if i <= 0 {
        (ZERO, ZERO)
    } else {
        buckets[i - 1]
    }
}

/// That share of the histogram's total.
pub open spec fn share(buckets: Seq<(u64, u64)>, q: u64) -> real {
    number(q) * number(buckets.last().1)
}

/// Whether a bucket is the first whose count reaches that share of the total.
pub open spec fn falls_into(buckets: Seq<(u64, u64)>, q: u64, i: int) -> bool {
    &&& 0 <= i < buckets.len()
    &&& share(buckets, q) <= number(buckets[i].1)
    &&& forall|j: int| 0 <= j < i ==> number((#[trigger] buckets[j]).1) < share(buckets, q)
}

/// Whether every count is finite, the total positive, and `q` strictly between 0
/// and 1.
pub open spec fn asks_within(buckets: Seq<(u64, u64)>, q: u64) -> bool {
    &&& buckets.len() >= 2
    &&& forall|j: int| 0 <= j < buckets.len() ==> is_finite_bits((#[trigger] buckets[j]).1)
    &&& number(buckets.last().1) > 0real
    &&& is_finite_bits(q)
    &&& 0real < number(q) < 1real
}

/// Whether the arithmetic computes the proportion within a bucket without rounding.
pub open spec fn proportion_is_exact<C: Fn(BinOp, u64, u64) -> u64, W: Fn(i128) -> u64>(
    ar: Arithmetic<C, W>,
    buckets: Seq<(u64, u64)>,
    q: u64,
    i: int,
) -> bool {
    let (le, count) = buckets[i];
    let (lower_le, lower_count) = before(buckets, i);
    let target = ar.result(BinOp::Mul, q, buckets.last().1);
    let within = ar.result(BinOp::Sub, count, lower_count);
    let above = ar.result(BinOp::Sub, target, lower_count);
    let part = ar.result(BinOp::Div, above, within);
    let width = ar.result(BinOp::Sub, le, lower_le);
    let length = ar.result(BinOp::Mul, part, width);
    &&& exact(ar, BinOp::Mul, q, buckets.last().1)
    &&& exact(ar, BinOp::Sub, count, lower_count)
    &&& exact(ar, BinOp::Sub, target, lower_count)
    &&& exact(ar, BinOp::Div, above, within)
    &&& exact(ar, BinOp::Sub, le, lower_le)
    &&& exact(ar, BinOp::Mul, part, width)
    &&& exact(ar, BinOp::Add, lower_le, length)
}

proof fn lemma_first_where(
    buckets: Seq<(u64, u64)>,
    p: spec_fn((u64, u64)) -> bool,
    from: int,
    i: int,
)
    requires
        0 <= from <= i < buckets.len(),
        p(buckets[i]),
        forall|j: int| from <= j < i ==> !p(#[trigger] buckets[j]),
    ensures
        first_where(buckets, p, from) == Some(i),
    decreases i - from,
{
    if from < i {
        assert(!p(buckets[from]));
        lemma_first_where(buckets, p, from + 1, i);
    }
}

proof fn lemma_last_where(
    buckets: Seq<(u64, u64)>,
    p: spec_fn((u64, u64)) -> bool,
    to: int,
    i: int,
)
    requires
        0 <= i < to <= buckets.len(),
        p(buckets[i]),
        forall|j: int| i < j < to ==> !p(#[trigger] buckets[j]),
    ensures
        last_where(buckets, p, to) == Some(i),
    decreases to,
{
    if i < to - 1 {
        assert(!p(buckets[to - 1]));
        lemma_last_where(buckets, p, to - 1, i);
    }
}

proof fn lemma_nowhere(buckets: Seq<(u64, u64)>, p: spec_fn((u64, u64)) -> bool, to: int)
    requires
        0 <= to <= buckets.len(),
        forall|j: int| 0 <= j < to ==> !p(#[trigger] buckets[j]),
    ensures
        last_where(buckets, p, to) is None,
    decreases to,
{
    if to > 0 {
        assert(!p(buckets[to - 1]));
        lemma_nowhere(buckets, p, to - 1);
    }
}

/// The bucket that a share of the total falls into is the one that is looked at.
proof fn lemma_bucket_found<C: Fn(BinOp, u64, u64) -> u64, W: Fn(i128) -> u64>(
    ar: Arithmetic<C, W>,
    buckets: Seq<(u64, u64)>,
    q: u64,
    i: int,
)
    requires
        asks_within(buckets, q),
        falls_into(buckets, q, i),
        exact(ar, BinOp::Mul, q, buckets.last().1),
    ensures
        !at_most_bits(buckets.last().1, ZERO),
        !is_nan_bits(q),
        !at_most_bits(q, ZERO),
        !at_most_bits(ONE, q),
        first_where(
            buckets,
            |b: (u64, u64)| at_most_bits(ar.result(BinOp::Mul, q, buckets.last().1), b.1),
            0,
        ) == Some(i),
        share(buckets, q) > 0real,
{
    let total = buckets.last().1;
    let target = ar.result(BinOp::Mul, q, total);
    assert(is_finite_bits(buckets[buckets.len() - 1].1));
    law_zero_and_one();
    law_bits_compare_as_numbers(total, ZERO);
    law_bits_compare_as_numbers(q, ZERO);
    law_bits_compare_as_numbers(ONE, q);
    let p = |b: (u64, u64)| at_most_bits(target, b.1);
    law_bits_compare_as_numbers(target, buckets[i].1);
    assert(p(buckets[i]));
    assert forall|j: int| 0 <= j < i implies !p(#[trigger] buckets[j]) by {
        law_bits_compare_as_numbers(target, buckets[j].1);
        assert(number(buckets[j].1) < share(buckets, q));
    }
    lemma_first_where(buckets, p, 0, i);
    lemma_mul_positive(number(q), number(total));
}

/// A quantile that falls into a bounded bucket divides the bucket's width as the
/// share of the total divides its count. So it lies between the bucket's bounds,
/// and is the upper bound where the share is the bucket's whole count.
pub proof fn law_quantile_divides_its_bucket<C: Fn(BinOp, u64, u64) -> u64, W: Fn(i128) -> u64>(
    ar: Arithmetic<C, W>,
    buckets: Seq<(u64, u64)>,
    q: u64,
    i: int,
)
    requires
        asks_within(buckets, q),
        falls_into(buckets, q, i),
        is_finite_bits(buckets[i].0),
        proportion_is_exact(ar, buckets, q, i),
    ensures
        quantile_of(ar, buckets, q) is Some,
        ({
            let r = number(quantile_of(ar, buckets, q)->0);
            let upper = number(buckets[i].0);
            let count = number(buckets[i].1);
            let lower = number(before(buckets, i).0);
            let lower_count = number(before(buckets, i).1);
            &&& lower_count < count
            &&& (r - lower) * (count - lower_count) == (share(buckets, q) - lower_count) * (upper
                - lower)
            &&& lower <= upper ==> lower <= r <= upper
            &&& share(buckets, q) == count ==> r == upper
        }),
{
    let (le, count) = buckets[i];
    let (lower_le, lower_count) = before(buckets, i);
    let target = ar.result(BinOp::Mul, q, buckets.last().1);
    let within = ar.result(BinOp::Sub, count, lower_count);
    let above = ar.result(BinOp::Sub, target, lower_count);
    let part = ar.result(BinOp::Div, above, within);
    let width = ar.result(BinOp::Sub, le, lower_le);
    let length = ar.result(BinOp::Mul, part, width);
    lemma_bucket_found(ar, buckets, q, i);
    law_zero_and_one();
    if i > 0 {
        assert(number(buckets[i - 1].1) < share(buckets, q));
    }
    law_bits_compare_as_numbers(within, ZERO);
    assert(number(within) > 0real);
    assert(!at_most_bits(within, ZERO));
    assert(!is_infinite_bits(le));
    let r = ar.result(BinOp::Add, lower_le, length);
    assert(quantile_of(ar, buckets, q) == Some(r));
    let n = number(within);
    let a = number(above);
    let w = number(width);
    let f = number(part);
    lemma_div_mul(a, n);
    assert(f * n == a);
    lemma_mul_swap(f, w, n);
    lemma_mul_swap(f, n, w);
    assert((f * w) * n == a * w);
    assert(0real < a <= n);
    if f < 0real {
        lemma_mul_less(f, 0real, n);
        lemma_mul_unit(n);
        assert(false);
    }
    lemma_mul_unit(n);
    assert(1real * n == n);
    if f > 1real {
        lemma_mul_less(1real, f, n);
        assert(false);
    }
    lemma_mul_unit(w);
    assert(0real * w == 0real && 1real * w == w);
    if w >= 0real {
        lemma_mul_at_most(0real, f, w);
        lemma_mul_at_most(f, 1real, w);
    }
    if a == n {
        lemma_mul_cancel(f, 1real, n);
    }
}

/// Scaling the bounds scales the quantile: where every bound of a second histogram
/// is `c` times that of the first and the counts are the same, so is its quantile.
pub proof fn law_quantile_scales_with_the_bounds<
    C: Fn(BinOp, u64, u64) -> u64,
    W: Fn(i128) -> u64,
>(
    ar: Arithmetic<C, W>,
    buckets: Seq<(u64, u64)>,
    scaled: Seq<(u64, u64)>,
    c: real,
    q: u64,
    i: int,
)
    requires
        asks_within(buckets, q),
        falls_into(buckets, q, i),
        scaled.len() == buckets.len(),
        forall|j: int|
            0 <= j < buckets.len() ==> (#[trigger] scaled[j]).1 == buckets[j].1,
        forall|j: int|
            0 <= j <= i ==> is_finite_bits((#[trigger] scaled[j]).0) && is_finite_bits(buckets[j].0)
                && number(scaled[j].0) == c * number(buckets[j].0),
        proportion_is_exact(ar, buckets, q, i),
        proportion_is_exact(ar, scaled, q, i),
    ensures
        quantile_of(ar, buckets, q) is Some,
        quantile_of(ar, scaled, q) is Some,
        number(quantile_of(ar, scaled, q)->0) == c * number(quantile_of(ar, buckets, q)->0),
{
    assert(scaled[scaled.len() - 1].1 == buckets[buckets.len() - 1].1);
    assert forall|j: int| 0 <= j < scaled.len() implies is_finite_bits((#[trigger] scaled[j]).1) by {
        assert(is_finite_bits(buckets[j].1));
    }
    assert forall|j: int| 0 <= j < i implies number((#[trigger] scaled[j]).1) < share(
        scaled,
        q,
    ) by {
        assert(number(buckets[j].1) < share(buckets, q));
    }
    assert(scaled[i].1 == buckets[i].1);
    law_quantile_divides_its_bucket(ar, buckets, q, i);
    law_quantile_divides_its_bucket(ar, scaled, q, i);
    law_zero_and_one();
    let r = number(quantile_of(ar, buckets, q)->0);
    let s = number(quantile_of(ar, scaled, q)->0);
    let upper = number(buckets[i].0);
    let lower = number(before(buckets, i).0);
    let n = number(buckets[i].1) - number(before(buckets, i).1);
    let a = share(buckets, q) - number(before(buckets, i).1);
    if i > 0 {
        assert(scaled[i - 1].1 == buckets[i - 1].1);
        assert(number(scaled[i - 1].0) == c * number(buckets[i - 1].0));
    } else {
        lemma_mul_unit(c);
    }
    lemma_mul_terms(upper, lower, c);
    lemma_mul_terms(r, lower, c);
    let d = upper - lower;
    let e = r - lower;
    assert((s - c * lower) * n == a * (c * d));
    lemma_mul_swap(a, c, d);
    lemma_mul_swap(a, d, c);
    lemma_mul_swap(c, e, n);
    lemma_mul_swap(e, n, c);
    lemma_mul_swap(c, e * n, 1real);
    assert((c * e) * n == c * (e * n));
    assert(e * n == a * d);
    assert(a * (c * d) == c * (a * d)) by {
        lemma_mul_swap(c, a, d);
        lemma_mul_swap(a, c, d);
    }
    lemma_mul_cancel(s - c * lower, c * e, n);
}

/// A quantile that falls into a bucket without an upper bound is the bound before.
pub proof fn law_quantile_beyond_the_bounds<C: Fn(BinOp, u64, u64) -> u64, W: Fn(i128) -> u64>(
    ar: Arithmetic<C, W>,
    buckets: Seq<(u64, u64)>,
    q: u64,
    i: int,
)
    requires
        asks_within(buckets, q),
        falls_into(buckets, q, i),
        is_infinite_bits(buckets[i].0),
        exact(ar, BinOp::Mul, q, buckets.last().1),
    ensures
        quantile_of(ar, buckets, q) == Some(before(buckets, i).0),
{
    lemma_bucket_found(ar, buckets, q, i);
}

/// For a quantile of 0 and below it is the bound of the first bucket with a count,
/// for one of 1 and above the last finite bound.
pub proof fn law_quantile_at_the_ends<C: Fn(BinOp, u64, u64) -> u64, W: Fn(i128) -> u64>(
    ar: Arithmetic<C, W>,
    buckets: Seq<(u64, u64)>,
    q: u64,
    i: int,
)
    requires
        buckets.len() >= 2,
        less_bits(ZERO, buckets.last().1),
        0 <= i < buckets.len(),
    ensures
        at_most_bits(q, ZERO) && less_bits(ZERO, buckets[i].1) && (forall|j: int|
            0 <= j < i ==> !less_bits(ZERO, (#[trigger] buckets[j]).1)) ==> quantile_of(
            ar,
            buckets,
            q,
        ) == Some(buckets[i].0),
        at_most_bits(ONE, q) && is_finite_bits(buckets[i].0) && (forall|j: int|
            i < j < buckets.len() ==> !is_finite_bits((#[trigger] buckets[j]).0)) ==> quantile_of(
            ar,
            buckets,
            q,
        ) == Some(buckets[i].0),
        at_most_bits(ONE, q) && (forall|j: int|
            0 <= j < buckets.len() ==> !is_finite_bits((#[trigger] buckets[j]).0)) ==> quantile_of(
            ar,
            buckets,
            q,
        ) is None,
{
    let p = |b: (u64, u64)| less_bits(ZERO, b.1);
    let f = |b: (u64, u64)| is_finite_bits(b.0);
    if at_most_bits(q, ZERO) && less_bits(ZERO, buckets[i].1) && (forall|j: int|
        0 <= j < i ==> !less_bits(ZERO, (#[trigger] buckets[j]).1)) {
        lemma_first_where(buckets, p, 0, i);
    }
    if at_most_bits(ONE, q) && is_finite_bits(buckets[i].0) && (forall|j: int|
        i < j < buckets.len() ==> !is_finite_bits((#[trigger] buckets[j]).0)) {
        lemma_last_where(buckets, f, buckets.len() as int, i);
    }
    if at_most_bits(ONE, q) && (forall|j: int|
        0 <= j < buckets.len() ==> !is_finite_bits((#[trigger] buckets[j]).0)) {
        lemma_nowhere(buckets, f, buckets.len() as int);
    }
}

/// In a bucket that counts nothing of its own the quantile is the bucket's bound.
pub proof fn law_quantile_in_an_empty_bucket<
    C: Fn(BinOp, u64, u64) -> u64,
    W: Fn(i128) -> u64,
>(ar: Arithmetic<C, W>, buckets: Seq<(u64, u64)>, q: u64, i: int)
    requires
        asks_within(buckets, q),
        falls_into(buckets, q, i),
        exact(ar, BinOp::Mul, q, buckets.last().1),
        is_finite_bits(buckets[i].0),
        at_most_bits(ar.result(BinOp::Sub, buckets[i].1, before(buckets, i).1), ZERO),
    ensures
        quantile_of(ar, buckets, q) == Some(buckets[i].0),
{
    lemma_bucket_found(ar, buckets, q, i);
}

/// There is no quantile of fewer than two buckets, of a histogram without a count,
/// or for a NaN; and there is one wherever the share of the total is reached.
pub proof fn law_quantiles_that_there_are<C: Fn(BinOp, u64, u64) -> u64, W: Fn(i128) -> u64>(
    ar: Arithmetic<C, W>,
    buckets: Seq<(u64, u64)>,
    q: u64,
)
    ensures
        buckets.len() < 2 ==> quantile_of(ar, buckets, q) is None,
        buckets.len() > 0 && at_most_bits(buckets.last().1, ZERO) ==> quantile_of(ar, buckets, q) is None,
        is_nan_bits(q) ==> quantile_of(ar, buckets, q) is None,
        asks_within(buckets, q) && exact(ar, BinOp::Mul, q, buckets.last().1) ==> quantile_of(
            ar,
            buckets,
            q,
        ) is Some,
{
    if asks_within(buckets, q) && exact(ar, BinOp::Mul, q, buckets.last().1) {
        let total = number(buckets.last().1);
        lemma_mul_less(number(q), 1real, total);
        lemma_mul_unit(total);
        let i = lemma_reached(buckets, q, buckets.len() - 1);
        lemma_bucket_found(ar, buckets, q, i);
    }
}

proof fn lemma_reached(buckets: Seq<(u64, u64)>, q: u64, at: int) -> (i: int)
    requires
        0 <= at < buckets.len(),
        share(buckets, q) <= number(buckets[at].1),
    ensures
        falls_into(buckets, q, i),
    decreases at,
{
    if exists|j: int| 0 <= j < at && share(buckets, q) <= number((#[trigger] buckets[j]).1) {
        let j = choose|j: int|
            0 <= j < at && share(buckets, q) <= number((#[trigger] buckets[j]).1);
        lemma_reached(buckets, q, j)
    } else {
        at
    }
}

} // verus!
