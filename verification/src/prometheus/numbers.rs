//! Evaluation on numbers: operators, aggregations, window functions and
//! quantiles.
//!
//! A number is the bit pattern of a double. Comparing is done on the bits; the
//! arithmetic itself is supplied by the caller as two functions, and everything
//! here is stated over what they return.

use vstd::prelude::*;
use crate::double::{
    at_most, at_most_bits, equal, equal_bits, is_finite, is_finite_bits, is_infinite,
    is_infinite_bits, is_nan, is_nan_bits, less, less_bits, INFINITE, ONE, ZERO,
};
use crate::prometheus::plan::{compares, AggOp, BinOp, RangeFnOp};

verus! {

/// The bits of a million: microseconds in a second.
pub const MILLION: u64 = 0x412E_8480_0000_0000;

/// The bits of negative infinity.
pub const NEGATIVE_INFINITE: u64 = 0xFFF0_0000_0000_0000;

/// Double arithmetic: `operate` is the result of an arithmetic operator on two
/// numbers, `whole` the number nearest to an integer.
pub struct Arithmetic<C, W> {
    pub operate: C,
    pub whole: W,
}

impl<C: Fn(BinOp, u64, u64) -> u64, W: Fn(i128) -> u64> Arithmetic<C, W> {
    /// Both functions take every argument, and give one result for each.
    pub open spec fn wf(self) -> bool {
        &&& forall|op: BinOp, a: u64, b: u64| #[trigger] call_requires(self.operate, (op, a, b))
        &&& forall|op: BinOp, a: u64, b: u64, r: u64, s: u64| #[trigger]
            call_ensures(self.operate, (op, a, b), r) && #[trigger] call_ensures(
                self.operate,
                (op, a, b),
                s,
            ) ==> r == s
        &&& forall|n: i128| #[trigger] call_requires(self.whole, (n,))
        &&& forall|n: i128, r: u64, s: u64| #[trigger]
            call_ensures(self.whole, (n,), r) && #[trigger] call_ensures(self.whole, (n,), s)
                ==> r == s
    }

    /// The result of an operator on two numbers.
    pub open spec fn result(self, op: BinOp, a: u64, b: u64) -> u64 {
        choose|r: u64| call_ensures(self.operate, (op, a, b), r)
    }

    /// The number nearest to an integer.
    pub open spec fn number(self, n: i128) -> u64 {
        choose|r: u64| call_ensures(self.whole, (n,), r)
    }

    /// The result of an operator on two numbers, as the function gives it.
    pub fn apply(&self, op: BinOp, a: u64, b: u64) -> (r: u64)
        requires
            self.wf(),
        ensures
            r == self.result(op, a, b),
            call_ensures(self.operate, (op, a, b), r),
    {
        (self.operate)(op, a, b)
    }

    /// The number nearest to an integer, as the function gives it.
    pub fn of(&self, n: i128) -> (r: u64)
        requires
            self.wf(),
        ensures
            r == self.number(n),
            call_ensures(self.whole, (n,), r),
    {
        (self.whole)(n)
    }
}

// ---------- operators ----------

/// Whether a comparison holds; every other operator passes.
pub open spec fn passes(a: u64, b: u64, op: BinOp) -> bool {
    match op {
        BinOp::Eq => equal_bits(a, b),
        BinOp::Ne => !equal_bits(a, b),
        BinOp::Lt => less_bits(a, b),
        BinOp::Le => at_most_bits(a, b),
        BinOp::Gt => less_bits(b, a),
        BinOp::Ge => at_most_bits(b, a),
        _ => true,
    }
}

/// Whether a comparison holds; every other operator passes.
pub fn comparison_passes(a: u64, b: u64, op: BinOp) -> (r: bool)
    ensures
        r == passes(a, b, op),
{
    match op {
        BinOp::Eq => equal(a, b),
        BinOp::Ne => !equal(a, b),
        BinOp::Lt => less(a, b),
        BinOp::Le => at_most(a, b),
        BinOp::Gt => less(b, a),
        BinOp::Ge => at_most(b, a),
        _ => true,
    }
}

/// The value of an operator on two numbers: 1 or 0 for a comparison.
pub open spec fn bin_value<C: Fn(BinOp, u64, u64) -> u64, W: Fn(i128) -> u64>(
    ar: Arithmetic<C, W>,
    a: u64,
    b: u64,
    op: BinOp,
) -> u64 {
    if !compares(op) {
        ar.result(op, a, b)
    } else if passes(a, b, op) {
        ONE
    } else {
        ZERO
    }
}

/// The value of an operator on two numbers: 1 or 0 for a comparison. Where a
/// comparison filters, the caller decides with `comparison_passes` instead.
pub fn apply_bin_value<C: Fn(BinOp, u64, u64) -> u64, W: Fn(i128) -> u64>(
    ar: &Arithmetic<C, W>,
    a: u64,
    b: u64,
    op: BinOp,
) -> (r: u64)
    requires
        ar.wf(),
    ensures
        r == bin_value(*ar, a, b, op),
{
    if !op.is_comparison() {
        ar.apply(op, a, b)
    } else if comparison_passes(a, b, op) {
        ONE
    } else {
        ZERO
    }
}

// ---------- aggregation ----------

/// The sum, adding from the first value on.
pub open spec fn total<C: Fn(BinOp, u64, u64) -> u64, W: Fn(i128) -> u64>(
    ar: Arithmetic<C, W>,
    values: Seq<u64>,
) -> u64
    decreases values.len(),
{
    if values.len() == 0 {
        ZERO
    } else if values.len() == 1 {
        values[0]
    } else {
        ar.result(BinOp::Add, total(ar, values.drop_last()), values.last())
    }
}

/// The least value, NaN counting as absent; infinity where there is none.
pub open spec fn least(values: Seq<u64>) -> u64
    decreases values.len(),
{
    if values.len() == 0 {
        INFINITE
    } else if less_bits(values.last(), least(values.drop_last())) {
        values.last()
    } else {
        least(values.drop_last())
    }
}

/// The greatest value, NaN counting as absent; negative infinity where there is
/// none.
pub open spec fn greatest(values: Seq<u64>) -> u64
    decreases values.len(),
{
    if values.len() == 0 {
        NEGATIVE_INFINITE
    } else if less_bits(greatest(values.drop_last()), values.last()) {
        values.last()
    } else {
        greatest(values.drop_last())
    }
}

/// The values of a group reduced to one.
pub open spec fn reduced<C: Fn(BinOp, u64, u64) -> u64, W: Fn(i128) -> u64>(
    ar: Arithmetic<C, W>,
    op: AggOp,
    values: Seq<u64>,
) -> u64 {
    match op {
        AggOp::Sum => total(ar, values),
        AggOp::Avg => if values.len() == 0 {
            ZERO
        } else {
            ar.result(BinOp::Div, total(ar, values), ar.number(values.len() as i128))
        },
        AggOp::Min => least(values),
        AggOp::Max => greatest(values),
        AggOp::Count => ar.number(values.len() as i128),
    }
}

fn sum<C: Fn(BinOp, u64, u64) -> u64, W: Fn(i128) -> u64>(
    ar: &Arithmetic<C, W>,
    values: &Vec<u64>,
) -> (r: u64)
    requires
        ar.wf(),
    ensures
        r == total(*ar, values@),
{
    if values.len() == 0 {
        return ZERO;
    }
    let mut r: u64 = values[0];
    let mut i: usize = 1;
    assert(values@.take(1) =~= seq![values@[0]]);
    while i < values.len()
        invariant
            ar.wf(),
            1 <= i <= values@.len(),
            r == total(*ar, values@.take(i as int)),
        decreases values@.len() - i,
    {
        proof {
            assert(values@.take(i as int + 1).drop_last() =~= values@.take(i as int));
        }
        r = ar.apply(BinOp::Add, r, values[i]);
        i += 1;
    }
    assert(values@.take(i as int) =~= values@);
    r
}

fn minimum(values: &Vec<u64>) -> (r: u64)
    ensures
        r == least(values@),
{
    let mut r: u64 = INFINITE;
    let mut i: usize = 0;
    while i < values.len()
        invariant
            i <= values@.len(),
            r == least(values@.take(i as int)),
        decreases values@.len() - i,
    {
        proof {
            assert(values@.take(i as int + 1).drop_last() =~= values@.take(i as int));
        }
        if less(values[i], r) {
            r = values[i];
        }
        i += 1;
    }
    assert(values@.take(i as int) =~= values@);
    r
}

fn maximum(values: &Vec<u64>) -> (r: u64)
    ensures
        r == greatest(values@),
{
    let mut r: u64 = NEGATIVE_INFINITE;
    let mut i: usize = 0;
    while i < values.len()
        invariant
            i <= values@.len(),
            r == greatest(values@.take(i as int)),
        decreases values@.len() - i,
    {
        proof {
            assert(values@.take(i as int + 1).drop_last() =~= values@.take(i as int));
        }
        if less(r, values[i]) {
            r = values[i];
        }
        i += 1;
    }
    assert(values@.take(i as int) =~= values@);
    r
}

/// Reduce the values of a group to one.
pub fn apply_agg<C: Fn(BinOp, u64, u64) -> u64, W: Fn(i128) -> u64>(
    ar: &Arithmetic<C, W>,
    op: AggOp,
    values: &Vec<u64>,
) -> (r: u64)
    requires
        ar.wf(),
    ensures
        r == reduced(*ar, op, values@),
{
    match op {
        AggOp::Sum => sum(ar, values),
        AggOp::Avg => if values.len() == 0 {
            ZERO
        } else {
            let s: u64 = sum(ar, values);
            let n: u64 = ar.of(values.len() as i128);
            ar.apply(BinOp::Div, s, n)
        },
        AggOp::Min => minimum(values),
        AggOp::Max => maximum(values),
        AggOp::Count => ar.of(values.len() as i128),
    }
}

/// The least value is one of the values, or infinity, and none of them is less.
pub proof fn law_least(values: Seq<u64>)
    ensures
        least(values) == INFINITE || values.contains(least(values)),
        forall|i: int| 0 <= i < values.len() ==> !less_bits(#[trigger] values[i], least(values)),
    decreases values.len(),
{
    if values.len() > 0 {
        let rest = values.drop_last();
        law_least(rest);
        assert(values[values.len() - 1] == values.last());
        if least(rest) != INFINITE {
            let w = choose|w: int| 0 <= w < rest.len() && rest[w] == least(rest);
            assert(values[w] == least(rest));
        }
        assert forall|i: int| 0 <= i < values.len() implies !less_bits(
            #[trigger] values[i],
            least(values),
        ) by {
            if i < rest.len() {
                assert(rest[i] == values[i]);
            }
        }
    }
}

/// The greatest value is one of the values, or negative infinity, and none of
/// them is greater.
pub proof fn law_greatest(values: Seq<u64>)
    ensures
        greatest(values) == NEGATIVE_INFINITE || values.contains(greatest(values)),
        forall|i: int| 0 <= i < values.len() ==> !less_bits(greatest(values), #[trigger] values[i]),
    decreases values.len(),
{
    if values.len() > 0 {
        let rest = values.drop_last();
        law_greatest(rest);
        assert(values[values.len() - 1] == values.last());
        if greatest(rest) != NEGATIVE_INFINITE {
            let w = choose|w: int| 0 <= w < rest.len() && rest[w] == greatest(rest);
            assert(values[w] == greatest(rest));
        }
        assert forall|i: int| 0 <= i < values.len() implies !less_bits(
            greatest(values),
            #[trigger] values[i],
        ) by {
            if i < rest.len() {
                assert(rest[i] == values[i]);
            }
        }
    }
}

// ---------- window functions ----------

/// How far a counter went from one sample to the next: a drop means that it was
/// reset and went from 0 to where it now is.
pub open spec fn counted<C: Fn(BinOp, u64, u64) -> u64, W: Fn(i128) -> u64>(
    ar: Arithmetic<C, W>,
    prev: u64,
    curr: u64,
) -> u64 {
    if at_most_bits(prev, curr) {
        ar.result(BinOp::Sub, curr, prev)
    } else {
        curr
    }
}

/// How far a counter went over the samples.
pub open spec fn growth<C: Fn(BinOp, u64, u64) -> u64, W: Fn(i128) -> u64>(
    ar: Arithmetic<C, W>,
    points: Seq<(i64, u64)>,
) -> u64
    decreases points.len(),
{
    if points.len() < 2 {
        ZERO
    } else {
        ar.result(
            BinOp::Add,
            growth(ar, points.drop_last()),
            counted(ar, points[points.len() - 2].1, points.last().1),
        )
    }
}

/// The seconds from one timestamp to another.
pub open spec fn seconds<C: Fn(BinOp, u64, u64) -> u64, W: Fn(i128) -> u64>(
    ar: Arithmetic<C, W>,
    from: i64,
    to: i64,
) -> u64 {
    ar.result(BinOp::Div, ar.number((to - from) as i128), MILLION)
}

/// The value of a window function on the samples of the window, in time order.
pub open spec fn window_value<C: Fn(BinOp, u64, u64) -> u64, W: Fn(i128) -> u64>(
    ar: Arithmetic<C, W>,
    points: Seq<(i64, u64)>,
    op: RangeFnOp,
) -> Option<u64> {
    let n = points.len();
    if n < 2 {
        None
    } else {
        match op {
            RangeFnOp::Rate => if points[0].0 < points.last().0 {
                Some(
                    ar.result(
                        BinOp::Div,
                        growth(ar, points),
                        seconds(ar, points[0].0, points.last().0),
                    ),
                )
            } else {
                None
            },
            RangeFnOp::Increase => if points[0].0 < points.last().0 {
                Some(growth(ar, points))
            } else {
                None
            },
            RangeFnOp::Irate => if points[n - 2].0 < points[n - 1].0 {
                Some(
                    ar.result(
                        BinOp::Div,
                        counted(ar, points[n - 2].1, points[n - 1].1),
                        seconds(ar, points[n - 2].0, points[n - 1].0),
                    ),
                )
            } else {
                None
            },
            RangeFnOp::Delta => Some(ar.result(BinOp::Sub, points.last().1, points[0].1)),
        }
    }
}

fn counter_step<C: Fn(BinOp, u64, u64) -> u64, W: Fn(i128) -> u64>(
    ar: &Arithmetic<C, W>,
    prev: u64,
    curr: u64,
) -> (r: u64)
    requires
        ar.wf(),
    ensures
        r == counted(*ar, prev, curr),
{
    if at_most(prev, curr) {
        ar.apply(BinOp::Sub, curr, prev)
    } else {
        curr
    }
}

fn seconds_between<C: Fn(BinOp, u64, u64) -> u64, W: Fn(i128) -> u64>(
    ar: &Arithmetic<C, W>,
    from: i64,
    to: i64,
) -> (r: u64)
    requires
        ar.wf(),
    ensures
        r == seconds(*ar, from, to),
{
    let micros: i128 = to as i128 - from as i128;
    let n: u64 = ar.of(micros);
    ar.apply(BinOp::Div, n, MILLION)
}

/// How far a counter went over samples in time order, and the seconds from the
/// first to the last; `None` where no time passed.
pub fn delta_with_reset_and_secs<C: Fn(BinOp, u64, u64) -> u64, W: Fn(i128) -> u64>(
    ar: &Arithmetic<C, W>,
    points: &[(i64, u64)],
) -> (r: Option<(u64, u64)>)
    requires
        ar.wf(),
    ensures
        r == if points@.len() < 2 || points@.last().0 <= points@[0].0 {
            None
        } else {
            Some((growth(*ar, points@), seconds(*ar, points@[0].0, points@.last().0)))
        },
{
    let n: usize = points.len();
    if n < 2 || points[n - 1].0 <= points[0].0 {
        return None;
    }
    let secs: u64 = seconds_between(ar, points[0].0, points[n - 1].0);
    let mut delta: u64 = ZERO;
    let mut i: usize = 1;
    assert(points@.take(1).len() == 1);
    while i < n
        invariant
            ar.wf(),
            n == points@.len(),
            1 <= i <= n,
            delta == growth(*ar, points@.take(i as int)),
        decreases n - i,
    {
        proof {
            let t = points@.take(i as int + 1);
            assert(t.drop_last() =~= points@.take(i as int));
            assert(t[t.len() - 2] == points@[i as int - 1]);
        }
        let step: u64 = counter_step(ar, points[i - 1].1, points[i].1);
        delta = ar.apply(BinOp::Add, delta, step);
        i += 1;
    }
    assert(points@.take(n as int) =~= points@);
    Some((delta, secs))
}

/// Apply a window function to samples in time order. The edges of the window
/// are not extrapolated, so on short windows numbers differ slightly from those
/// of a Prometheus server.
pub fn compute_range_fn<C: Fn(BinOp, u64, u64) -> u64, W: Fn(i128) -> u64>(
    ar: &Arithmetic<C, W>,
    points: &[(i64, u64)],
    op: RangeFnOp,
) -> (r: Option<u64>)
    requires
        ar.wf(),
    ensures
        r == window_value(*ar, points@, op),
{
    let n: usize = points.len();
    if n < 2 {
        return None;
    }
    match op {
        RangeFnOp::Rate => match delta_with_reset_and_secs(ar, points) {
            Some((delta, secs)) => Some(ar.apply(BinOp::Div, delta, secs)),
            None => None,
        },
        RangeFnOp::Increase => match delta_with_reset_and_secs(ar, points) {
            Some((delta, _)) => Some(delta),
            None => None,
        },
        RangeFnOp::Irate => {
            let (prev_ts, prev) = points[n - 2];
            let (curr_ts, curr) = points[n - 1];
            if curr_ts <= prev_ts {
                return None;
            }
            let secs: u64 = seconds_between(ar, prev_ts, curr_ts);
            let delta: u64 = counter_step(ar, prev, curr);
            Some(ar.apply(BinOp::Div, delta, secs))
        },
        RangeFnOp::Delta => Some(ar.apply(BinOp::Sub, points[n - 1].1, points[0].1)),
    }
}

// ---------- quantiles ----------

/// The first bucket, at or after place `i`, that a predicate holds of.
pub open spec fn first_where(
    buckets: Seq<(u64, u64)>,
    p: spec_fn((u64, u64)) -> bool,
    i: int,
) -> Option<int>
    decreases buckets.len() - i,
{
    if i < 0 || i >= buckets.len() {
        None
    } else if p(buckets[i]) {
        Some(i)
    } else {
        first_where(buckets, p, i + 1)
    }
}

/// The last bucket before place `i` that a predicate holds of.
pub open spec fn last_where(
    buckets: Seq<(u64, u64)>,
    p: spec_fn((u64, u64)) -> bool,
    i: int,
) -> Option<int>
    decreases i,
{
    if i <= 0 || i > buckets.len() {
        None
    } else if p(buckets[i - 1]) {
        Some(i - 1)
    } else {
        last_where(buckets, p, i - 1)
    }
}

/// The value between the bounds of the bucket at place `at` that `target` falls
/// on.
pub open spec fn interpolated<C: Fn(BinOp, u64, u64) -> u64, W: Fn(i128) -> u64>(
    ar: Arithmetic<C, W>,
    buckets: Seq<(u64, u64)>,
    target: u64,
    at: int,
) -> u64 {
    let (le, count) = buckets[at];
    let (lower_le, lower_count) = if at == 0 {
        (ZERO, ZERO)
    } else {
        buckets[at - 1]
    };
    let within = ar.result(BinOp::Sub, count, lower_count);
    if is_infinite_bits(le) {
        lower_le
    } else if at_most_bits(within, ZERO) {
        le
    } else {
        let fraction = ar.result(BinOp::Div, ar.result(BinOp::Sub, target, lower_count), within);
        ar.result(
            BinOp::Add,
            lower_le,
            ar.result(BinOp::Mul, fraction, ar.result(BinOp::Sub, le, lower_le)),
        )
    }
}

/// The quantile of a cumulative histogram given as `(le, count)` in the order of
/// the bounds, the last of them infinite and carrying the total. For a quantile
/// of 0 and below it is the lowest bound with any count, for 1 and above the
/// greatest finite bound. Otherwise it lies in the bucket whose count first
/// reaches that share of the total; where that one has no upper bound, it is the
/// bound before.
pub open spec fn quantile_of<C: Fn(BinOp, u64, u64) -> u64, W: Fn(i128) -> u64>(
    ar: Arithmetic<C, W>,
    buckets: Seq<(u64, u64)>,
    q: u64,
) -> Option<u64> {
    if buckets.len() < 2 || at_most_bits(buckets.last().1, ZERO) || is_nan_bits(q) {
        None
    } else if at_most_bits(q, ZERO) {
        match first_where(buckets, |b: (u64, u64)| less_bits(ZERO, b.1), 0) {
            Some(i) => Some(buckets[i].0),
            None => None,
        }
    } else if at_most_bits(ONE, q) {
        match last_where(buckets, |b: (u64, u64)| is_finite_bits(b.0), buckets.len() as int) {
            Some(i) => Some(buckets[i].0),
            None => None,
        }
    } else {
        let target = ar.result(BinOp::Mul, q, buckets.last().1);
        match first_where(buckets, |b: (u64, u64)| at_most_bits(target, b.1), 0) {
            Some(i) => Some(interpolated(ar, buckets, target, i)),
            None => None,
        }
    }
}

/// The quantile of a cumulative histogram.
pub fn quantile_from_buckets<C: Fn(BinOp, u64, u64) -> u64, W: Fn(i128) -> u64>(
    ar: &Arithmetic<C, W>,
    buckets: &Vec<(u64, u64)>,
    q: u64,
) -> (r: Option<u64>)
    requires
        ar.wf(),
    ensures
        r == quantile_of(*ar, buckets@, q),
{
    let n: usize = buckets.len();
    if n < 2 {
        return None;
    }
    let whole: u64 = buckets[n - 1].1;
    if at_most(whole, ZERO) || is_nan(q) {
        return None;
    }
    if at_most(q, ZERO) {
        let ghost p = |b: (u64, u64)| less_bits(ZERO, b.1);
        let mut i: usize = 0;
        while i < n
            invariant
                n == buckets@.len(),
                i <= n,
                p == (|b: (u64, u64)| less_bits(ZERO, b.1)),
                first_where(buckets@, p, 0) == first_where(buckets@, p, i as int),
                quantile_of(*ar, buckets@, q) == match first_where(buckets@, p, 0) {
                    Some(j) => Some(buckets@[j].0),
                    None => None,
                },
            decreases n - i,
        {
            if less(ZERO, buckets[i].1) {
                return Some(buckets[i].0);
            }
            i += 1;
        }
        return None;
    }
    if at_most(ONE, q) {
        let ghost p = |b: (u64, u64)| is_finite_bits(b.0);
        let mut i: usize = n;
        while i > 0
            invariant
                n == buckets@.len(),
                i <= n,
                p == (|b: (u64, u64)| is_finite_bits(b.0)),
                last_where(buckets@, p, n as int) == last_where(buckets@, p, i as int),
                quantile_of(*ar, buckets@, q) == match last_where(buckets@, p, n as int) {
                    Some(j) => Some(buckets@[j].0),
                    None => None,
                },
            decreases i,
        {
            if is_finite(buckets[i - 1].0) {
                return Some(buckets[i - 1].0);
            }
            i -= 1;
        }
        return None;
    }
    let target: u64 = ar.apply(BinOp::Mul, q, whole);
    let ghost p = |b: (u64, u64)| at_most_bits(target, b.1);
    let mut i: usize = 0;
    while i < n
        invariant
            ar.wf(),
            n == buckets@.len(),
            i <= n,
            p == (|b: (u64, u64)| at_most_bits(target, b.1)),
            first_where(buckets@, p, 0) == first_where(buckets@, p, i as int),
            quantile_of(*ar, buckets@, q) == match first_where(buckets@, p, 0) {
                Some(j) => Some(interpolated(*ar, buckets@, target, j)),
                None => None,
            },
        decreases n - i,
    {
        let (le, count) = buckets[i];
        if at_most(target, count) {
            let (lower_le, lower_count) = if i == 0 {
                (ZERO, ZERO)
            } else {
                buckets[i - 1]
            };
            if is_infinite(le) {
                return Some(lower_le);
            }
            let within: u64 = ar.apply(BinOp::Sub, count, lower_count);
            if at_most(within, ZERO) {
                return Some(le);
            }
            let above: u64 = ar.apply(BinOp::Sub, target, lower_count);
            let fraction: u64 = ar.apply(BinOp::Div, above, within);
            let width: u64 = ar.apply(BinOp::Sub, le, lower_le);
            let part: u64 = ar.apply(BinOp::Mul, fraction, width);
            return Some(ar.apply(BinOp::Add, lower_le, part));
        }
        i += 1;
    }
    None
}

} // verus!
