//! Facts of real arithmetic.

use vstd::prelude::*;

verus! {

/// A product of positive numbers is positive.
pub proof fn lemma_mul_positive(x: real, y: real)
    by (nonlinear_arith)
    requires
        x > 0real,
        y > 0real,
    ensures
        x * y > 0real,
{
}

/// A positive factor keeps the order.
pub proof fn lemma_mul_less(x: real, y: real, n: real)
    requires
        x < y,
        n > 0real,
    ensures
        x * n < y * n,
{
    let d = y - x;
    lemma_mul_positive(d, n);
    assert((y - x) * n == y * n - x * n) by (nonlinear_arith);
}

/// A factor that is not negative keeps the order.
pub proof fn lemma_mul_at_most(x: real, y: real, n: real)
    requires
        x <= y,
        n >= 0real,
    ensures
        x * n <= y * n,
{
    if x < y && n > 0real {
        lemma_mul_less(x, y, n);
    } else if n == 0real {
        assert(x * 0real == 0real) by (nonlinear_arith);
        assert(y * 0real == 0real) by (nonlinear_arith);
    }
}

/// Equal products of a positive factor have equal other factors.
pub proof fn lemma_mul_cancel(x: real, y: real, n: real)
    requires
        x * n == y * n,
        n > 0real,
    ensures
        x == y,
{
    if x < y {
        lemma_mul_less(x, y, n);
    } else if y < x {
        lemma_mul_less(y, x, n);
    }
}

/// Dividing undoes multiplying.
pub proof fn lemma_div_mul(a: real, n: real)
    by (nonlinear_arith)
    requires
        n > 0real,
    ensures
        (a / n) * n == a,
{
}

/// Factors can be taken in another order.
pub proof fn lemma_mul_swap(x: real, y: real, z: real)
    by (nonlinear_arith)
    ensures
        (x * y) * z == (x * z) * y,
        x * y == y * x,
        (x * y) * z == x * (y * z),
{
}

/// A factor is multiplied with both terms.
pub proof fn lemma_mul_terms(x: real, y: real, n: real)
    by (nonlinear_arith)
    ensures
        (x - y) * n == x * n - y * n,
        (x + y) * n == x * n + y * n,
        n * (x - y) == n * x - n * y,
        n * (x + y) == n * x + n * y,
{
}

/// Once a number is the number, and none of it is nothing.
pub proof fn lemma_mul_unit(n: real)
    by (nonlinear_arith)
    ensures
        1real * n == n,
        n * 1real == n,
        0real * n == 0real,
        n * 0real == 0real,
{
}

} // verus!
