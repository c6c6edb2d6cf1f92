//! Facts about products that the solver wants spelled out.
use vstd::prelude::*;

verus! {

/// One more of a factor adds the other factor to the product.
pub proof fn lemma_mul_step(i: int, b: int)
    by (nonlinear_arith)
    ensures
        (i + 1) * b == i * b + b,
        b * (i + 1) == b * i + b,
{
}

/// Products of non-negative numbers grow with their factors.
pub proof fn lemma_mul_le(a: int, b: int, c: int)
    by (nonlinear_arith)
    requires
        0 <= a <= b,
        0 <= c,
    ensures
        0 <= a * c <= b * c,
        0 <= c * a <= c * b,
{
}

/// Products with a common factor add up, and a product with 0 is 0.
pub proof fn lemma_mul_sum(a: int, x: int, y: int)
    by (nonlinear_arith)
    ensures
        a * x + a * y == a * (x + y),
        x * a + y * a == (x + y) * a,
        a * 0 == 0,
        0 * a == 0,
{
}

} // verus!
