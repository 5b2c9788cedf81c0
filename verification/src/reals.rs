//! Small facts of real arithmetic that the solver is not asked to find
//! inside larger proofs.

use vstd::prelude::*;

verus! {

/// `(x - k * y) * z = x * z - k * (y * z)`.
pub proof fn lemma_combine_left(x: real, y: real, k: real, z: real)
    ensures
        (x - k * y) * z == x * z - k * (y * z),
{
    assert((x - k * y) * z == x * z - k * (y * z)) by (nonlinear_arith);
}

/// `s * (x - k * y) = s * x - k * (s * y)`.
pub proof fn lemma_combine_right(s: real, x: real, y: real, k: real)
    ensures
        s * (x - k * y) == s * x - k * (s * y),
{
    assert(s * (x - k * y) == s * x - k * (s * y)) by (nonlinear_arith);
}

/// `k * (p + q) = k * p + k * q` and `k * (p - q) = k * p - k * q`.
pub proof fn lemma_distribute(k: real, p: real, q: real)
    ensures
        k * (p + q) == k * p + k * q,
        k * (p - q) == k * p - k * q,
{
    assert(k * (p + q) == k * p + k * q) by (nonlinear_arith);
    assert(k * (p - q) == k * p - k * q) by (nonlinear_arith);
}

/// `(p + q) * h = p * h + q * h`.
pub proof fn lemma_distribute_left(p: real, q: real, h: real)
    ensures
        (p + q) * h == p * h + q * h,
{
    assert((p + q) * h == p * h + q * h) by (nonlinear_arith);
}

/// `(v * z) * h = (v * h) * z`.
pub proof fn lemma_swap_factors(v: real, z: real, h: real)
    ensures
        (v * z) * h == (v * h) * z,
{
    assert((v * z) * h == (v * h) * z) by (nonlinear_arith);
}

/// A product with zero is zero.
pub proof fn lemma_mul_zero(x: real)
    ensures
        x * 0real == 0real,
        0real * x == 0real,
{
    assert(x * 0real == 0real) by (nonlinear_arith);
    assert(0real * x == 0real) by (nonlinear_arith);
}

/// `(x / h) * h = x`.
pub proof fn lemma_quotient(x: real, h: real)
    requires
        h != 0real,
    ensures
        (x / h) * h == x,
{
    assert((x / h) * h == x) by (nonlinear_arith)
        requires
            h != 0real,
    ;
}

/// If `p * h = q` for `h` other than zero, `p` is zero exactly when `q` is.
pub proof fn lemma_zero_factor(p: real, h: real, q: real)
    requires
        h != 0real,
        p * h == q,
    ensures
        p == 0real <==> q == 0real,
{
    assert(p == 0real <==> q == 0real) by (nonlinear_arith)
        requires
            h != 0real,
            p * h == q,
    ;
}

/// `(0 - s) * (0 - d) = s * d`.
pub proof fn lemma_two_signs(s: real, d: real)
    ensures
        (0real - s) * (0real - d) == s * d,
{
    assert((0real - s) * (0real - d) == s * d) by (nonlinear_arith);
}

/// `a * b = b * a`.
pub proof fn lemma_commute(a: real, b: real)
    ensures
        a * b == b * a,
{
    assert(a * b == b * a) by (nonlinear_arith);
}

/// A square is not negative, and is zero only for zero.
pub proof fn lemma_square(x: real)
    ensures
        x * x >= 0real,
        x * x == 0real ==> x == 0real,
{
    assert(x * x >= 0real) by (nonlinear_arith);
    assert(x * x == 0real ==> x == 0real) by (nonlinear_arith);
}

/// For `h` above zero, `(x / h) * x` is not negative.
pub proof fn lemma_ratio_square(x: real, h: real)
    requires
        h > 0real,
    ensures
        (x / h) * x >= 0real,
{
    let k = x / h;
    lemma_quotient(x, h);
    assert(k * (k * h) >= 0real) by (nonlinear_arith)
        requires
            h > 0real,
    ;
}

/// A product with one is the other factor.
pub proof fn lemma_mul_one(x: real)
    ensures
        x * 1real == x,
        1real * x == x,
{
    assert(x * 1real == x) by (nonlinear_arith);
    assert(1real * x == x) by (nonlinear_arith);
}

/// `s1 * x * (s2 * d) = (s1 * s2) * (x * d)` and
/// `s3 * (s4 * x * d) = (s3 * s4) * (x * d)`.
pub proof fn lemma_gather_signs(s1: real, s2: real, x: real, d: real)
    ensures
        s1 * x * (s2 * d) == (s1 * s2) * (x * d),
        s1 * (s2 * x * d) == (s1 * s2) * (x * d),
{
    assert(s1 * x * (s2 * d) == (s1 * s2) * (x * d)) by (nonlinear_arith);
    assert(s1 * (s2 * x * d) == (s1 * s2) * (x * d)) by (nonlinear_arith);
}

/// `k * (x * d) = x * (k * d)`.
pub proof fn lemma_move_factor(k: real, x: real, d: real)
    ensures
        k * (x * d) == x * (k * d),
{
    assert(k * (x * d) == x * (k * d)) by (nonlinear_arith);
}

} // verus!
