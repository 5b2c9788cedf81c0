//! Row operations and what they leave unchanged.
//!
//! Elimination rewrites a matrix by swapping rows, dividing a row by a
//! number other than zero, and subtracting a multiple of one row from
//! another. None of these changes which vectors the matrix sends to zero.
//! The solvers are proved from that one fact.

use crate::model::Matrix;
use crate::model::dot;
use crate::reals::lemma_combine_left;
use crate::reals::lemma_distribute;
use crate::reals::lemma_distribute_left;
use crate::reals::lemma_mul_zero;
use crate::reals::lemma_quotient;
use crate::reals::lemma_swap_factors;
use vstd::prelude::*;

verus! {

/// The sum of `r(c) * v(c)` over the first `n` values of `c`.
pub open spec fn wsum(r: spec_fn(int) -> real, v: spec_fn(int) -> real, n: nat) -> real
    decreases n,
{
    if n == 0 {
        0real
    } else {
        wsum(r, v, (n - 1) as nat) + r(n - 1) * v(n - 1)
    }
}

/// Row `i` of `m`, as a function of the column.
pub open spec fn row_of(m: Matrix, i: int) -> spec_fn(int) -> real {
    |c: int| m.at(i, c)
}

/// Column `j` of `m`, as a function of the row.
pub open spec fn col_of(m: Matrix, j: int) -> spec_fn(int) -> real {
    |c: int| m.at(c, j)
}

/// Row `i` of `m` applied to the vector `v`.
pub open spec fn apply(m: Matrix, i: int, v: spec_fn(int) -> real) -> real {
    wsum(row_of(m, i), v, m.cols)
}

/// Every row of `m` sends `v` to zero.
pub open spec fn annihilates(m: Matrix, v: spec_fn(int) -> real) -> bool {
    forall|i: int| 0 <= i < m.rows ==> #[trigger] apply(m, i, v) == 0real
}

/// `a` and `b` send the same vectors to zero.
pub open spec fn same_kernel(a: Matrix, b: Matrix) -> bool {
    forall|v: spec_fn(int) -> real| #[trigger] annihilates(a, v) <==> annihilates(b, v)
}

/// `x` is not zero on the columns of `a`, and `a` sends it to zero.
pub open spec fn kernel_vector(a: Matrix, x: spec_fn(int) -> real) -> bool {
    &&& exists|c: int| 0 <= c < a.cols && #[trigger] x(c) != 0real
    &&& annihilates(a, x)
}

/// Some vector other than zero is sent to zero by `a`: the system
/// `a * x = b` then has no solution, or more than one.
pub open spec fn singular(a: Matrix) -> bool {
    exists|x: spec_fn(int) -> real| #[trigger] kernel_vector(a, x)
}

/// `m` with rows `a` and `b` exchanged.
pub open spec fn swap_rows(m: Matrix, a: int, b: int) -> Matrix {
    Matrix::tabulate(
        m.rows,
        m.cols,
        |i: int, j: int|
            m.at(
                if i == a {
                    b
                } else if i == b {
                    a
                } else {
                    i
                },
                j,
            ),
    )
}

/// `m` with row `a` divided by `h`.
pub open spec fn scale_row(m: Matrix, a: int, h: real) -> Matrix {
    Matrix::tabulate(
        m.rows,
        m.cols,
        |i: int, j: int|
            if i == a {
                m.at(i, j) / h
            } else {
                m.at(i, j)
            },
    )
}

/// `m` with `k` times row `b` subtracted from row `a`.
pub open spec fn reduce_row(m: Matrix, a: int, b: int, k: real) -> Matrix {
    Matrix::tabulate(
        m.rows,
        m.cols,
        |i: int, j: int|
            if i == a {
                m.at(a, j) - k * m.at(b, j)
            } else {
                m.at(i, j)
            },
    )
}

/// Two rows that agree on the first `n` columns have the same sum there.
pub proof fn lemma_wsum_same(
    r1: spec_fn(int) -> real,
    r2: spec_fn(int) -> real,
    v: spec_fn(int) -> real,
    n: nat,
)
    requires
        forall|c: int| 0 <= c < n ==> #[trigger] r1(c) == r2(c),
    ensures
        wsum(r1, v, n) == wsum(r2, v, n),
    decreases n,
{
    if n > 0 {
        lemma_wsum_same(r1, r2, v, (n - 1) as nat);
    }
}

/// Two vectors that agree on the first `n` columns have the same sum there.
pub proof fn lemma_wsum_same_vector(
    r: spec_fn(int) -> real,
    v1: spec_fn(int) -> real,
    v2: spec_fn(int) -> real,
    n: nat,
)
    requires
        forall|c: int| 0 <= c < n ==> #[trigger] v1(c) == v2(c),
    ensures
        wsum(r, v1, n) == wsum(r, v2, n),
    decreases n,
{
    if n > 0 {
        lemma_wsum_same_vector(r, v1, v2, (n - 1) as nat);
    }
}

/// The sum is linear in the row: `r3 = r1 - k * r2` gives
/// `sum(r3) = sum(r1) - k * sum(r2)`.
pub proof fn lemma_wsum_reduce(
    r1: spec_fn(int) -> real,
    r2: spec_fn(int) -> real,
    r3: spec_fn(int) -> real,
    k: real,
    v: spec_fn(int) -> real,
    n: nat,
)
    requires
        forall|c: int| 0 <= c < n ==> #[trigger] r3(c) == r1(c) - k * r2(c),
    ensures
        wsum(r3, v, n) == wsum(r1, v, n) - k * wsum(r2, v, n),
    decreases n,
{
    if n > 0 {
        lemma_wsum_reduce(r1, r2, r3, k, v, (n - 1) as nat);
        let b = wsum(r2, v, (n - 1) as nat);
        let x = r1(n - 1);
        let y = r2(n - 1);
        let z = v(n - 1);
        assert(r3(n - 1) == x - k * y);
        lemma_combine_left(x, y, k, z);
        lemma_distribute(k, b, y * z);
    }
}

/// A row divided by `h` has the sum of the row, once multiplied by `h`
/// again.
pub proof fn lemma_wsum_divide(
    r1: spec_fn(int) -> real,
    r2: spec_fn(int) -> real,
    h: real,
    v: spec_fn(int) -> real,
    n: nat,
)
    requires
        h != 0real,
        forall|c: int| 0 <= c < n ==> #[trigger] r2(c) == r1(c) / h,
    ensures
        wsum(r2, v, n) * h == wsum(r1, v, n),
    decreases n,
{
    if n > 0 {
        lemma_wsum_divide(r1, r2, h, v, (n - 1) as nat);
        let a = wsum(r2, v, (n - 1) as nat);
        let x = r1(n - 1);
        let y = r2(n - 1);
        let z = v(n - 1);
        assert(y == x / h);
        lemma_quotient(x, h);
        lemma_distribute_left(a, y * z, h);
        lemma_swap_factors(y, z, h);
    } else {
        lemma_mul_zero(h);
    }
}

/// Columns on which the row or the vector is zero add nothing to the sum.
pub proof fn lemma_wsum_skip(r: spec_fn(int) -> real, v: spec_fn(int) -> real, lo: nat, hi: nat)
    requires
        lo <= hi,
        forall|c: int| lo <= c < hi ==> #[trigger] r(c) == 0real || #[trigger] v(c) == 0real,
    ensures
        wsum(r, v, hi) == wsum(r, v, lo),
    decreases hi,
{
    if hi > lo {
        lemma_wsum_skip(r, v, lo, (hi - 1) as nat);
        let x = r(hi - 1);
        let z = v(hi - 1);
        lemma_mul_zero(x);
        lemma_mul_zero(z);
    }
}

/// Between `lo` and `hi`, only column `c0` adds to the sum.
pub proof fn lemma_wsum_single(
    r: spec_fn(int) -> real,
    v: spec_fn(int) -> real,
    lo: nat,
    hi: nat,
    c0: int,
)
    requires
        lo <= c0 < hi,
        forall|c: int|
            lo <= c < hi && c != c0 ==> #[trigger] r(c) == 0real || #[trigger] v(c) == 0real,
    ensures
        wsum(r, v, hi) == wsum(r, v, lo) + r(c0) * v(c0),
{
    lemma_wsum_skip(r, v, lo, c0 as nat);
    lemma_wsum_skip(r, v, (c0 + 1) as nat, hi);
}

/// The sum of a row of `a` against a column of `b` is their dot product.
pub proof fn lemma_wsum_dot(a: Matrix, b: Matrix, i: int, j: int, n: nat)
    ensures
        wsum(row_of(a, i), col_of(b, j), n) == dot(a, b, i, j, n),
    decreases n,
{
    if n > 0 {
        lemma_wsum_dot(a, b, i, j, (n - 1) as nat);
    }
}

} // verus!
