//! The determinant is linear in each row.

use crate::det::copy_row;
use crate::det::lemma_expansion_step;
use crate::det_swap::lemma_det_equal_rows;
use crate::kernel::reduce_row;
use crate::model::Matrix;
use crate::model::expansion;
use crate::model::lemma_equal;
use crate::model::sign;
use crate::reals::lemma_combine_left;
use crate::reals::lemma_combine_right;
use crate::reals::lemma_distribute;
use vstd::prelude::*;

verus! {

/// `m1`, `m2` and `m3` agree outside row `a`, where `m3 = m1 - k * m2`.
pub open spec fn row_combination(m1: Matrix, m2: Matrix, m3: Matrix, a: int, k: real) -> bool {
    &&& m1.complete() && m2.complete() && m3.complete()
    &&& m1.square()
    &&& m2.same_shape(m1) && m3.same_shape(m1)
    &&& 0 <= a < m1.rows
    &&& forall|i: int, j: int|
        m1.in_bounds(i, j) && i != a ==> #[trigger] m2.at(i, j) == m1.at(i, j)
    &&& forall|i: int, j: int|
        m1.in_bounds(i, j) && i != a ==> #[trigger] m3.at(i, j) == m1.at(i, j)
    &&& forall|j: int| 0 <= j < m1.cols ==> #[trigger] m3.at(a, j) == m1.at(a, j) - k * m2.at(a, j)
}

/// The expansion is linear in each row.
proof fn lemma_combination_expansion(m1: Matrix, m2: Matrix, m3: Matrix, a: int, k: real, n: nat)
    requires
        row_combination(m1, m2, m3, a, k),
        m1.rows >= 3,
        n <= m1.rows,
    ensures
        expansion(m3, n) == expansion(m1, n) - k * expansion(m2, n),
    decreases m1.rows, n,
{
    if n == 0 {
        assert(expansion(m1, 0) == 0real);
        assert(expansion(m2, 0) == 0real);
        assert(expansion(m3, 0) == 0real);
        lemma_distribute(k, 0real, 0real);
    } else {
        let t = n - 1;
        lemma_combination_expansion(m1, m2, m3, a, k, t as nat);
        lemma_expansion_step(m1, n);
        lemma_expansion_step(m2, n);
        lemma_expansion_step(m3, n);
        let sg = sign(t);
        let e1 = expansion(m1, t as nat);
        let e2 = expansion(m2, t as nat);
        let x1 = m1.at(t, 0);
        let x2 = m2.at(t, 0);
        let x3 = m3.at(t, 0);
        let d1 = m1.minor(t, 0).det();
        let d2 = m2.minor(t, 0).det();
        let d3 = m3.minor(t, 0).det();
        if t == a {
            lemma_equal(m2.minor(t, 0), m1.minor(t, 0));
            lemma_equal(m3.minor(t, 0), m1.minor(t, 0));
            assert(x3 == x1 - k * x2);
            lemma_combine_right(sg, x1, x2, k);
            lemma_combine_left(sg * x1, sg * x2, k, d1);
            lemma_distribute(k, e2, sg * x2 * d1);
            assert(sg * x3 == sg * x1 - k * (sg * x2));
            assert(sg * x3 * d1 == sg * x1 * d1 - k * (sg * x2 * d1));
        } else {
            let b = if a < t {
                a
            } else {
                a - 1
            };
            let s1 = m1.minor(t, 0);
            let s2 = m2.minor(t, 0);
            let s3 = m3.minor(t, 0);
            assert(row_combination(s1, s2, s3, b, k)) by {
                assert forall|j: int| 0 <= j < s1.cols implies #[trigger] s3.at(b, j) == s1.at(b, j)
                    - k * s2.at(b, j) by {
                    assert(m3.at(a, j + 1) == m1.at(a, j + 1) - k * m2.at(a, j + 1));
                }
            }
            lemma_det_combination(s1, s2, s3, b, k);
            assert(x2 == x1);
            assert(x3 == x1);
            assert(d3 == d1 - k * d2);
            lemma_combine_right(sg * x1, d1, d2, k);
            lemma_distribute(k, e2, sg * x1 * d2);
            assert(sg * x1 * d3 == sg * x1 * d1 - k * (sg * x1 * d2));
        }
    }
}

/// The determinant is linear in each row.
pub proof fn lemma_det_combination(m1: Matrix, m2: Matrix, m3: Matrix, a: int, k: real)
    requires
        row_combination(m1, m2, m3, a, k),
    ensures
        m3.det() == m1.det() - k * m2.det(),
    decreases m1.rows, m1.rows + 1,
{
    if m1.rows == 1 {
        assert(m3.at(0, 0) == m1.at(0, 0) - k * m2.at(0, 0));
    } else if m1.rows == 2 {
        let a1 = m1.at(0, 0);
        let b1 = m1.at(0, 1);
        let c1 = m1.at(1, 0);
        let d1 = m1.at(1, 1);
        let a2 = m2.at(0, 0);
        let b2 = m2.at(0, 1);
        let c2 = m2.at(1, 0);
        let d2 = m2.at(1, 1);
        let a3 = m3.at(0, 0);
        let b3 = m3.at(0, 1);
        let c3 = m3.at(1, 0);
        let d3 = m3.at(1, 1);
        if a == 0 {
            assert(a3 == a1 - k * a2 && b3 == b1 - k * b2);
            assert(c2 == c1 && c3 == c1 && d2 == d1 && d3 == d1);
            lemma_combine_left(a1, a2, k, d1);
            lemma_combine_left(b1, b2, k, c1);
            lemma_distribute(k, a2 * d1, b2 * c1);
            assert(a3 * d1 == a1 * d1 - k * (a2 * d1));
            assert(b3 * c1 == b1 * c1 - k * (b2 * c1));
        } else {
            assert(c3 == c1 - k * c2 && d3 == d1 - k * d2);
            assert(a2 == a1 && a3 == a1 && b2 == b1 && b3 == b1);
            lemma_combine_right(a1, d1, d2, k);
            lemma_combine_right(b1, c1, c2, k);
            lemma_distribute(k, a1 * d2, b1 * c2);
            assert(a1 * d3 == a1 * d1 - k * (a1 * d2));
            assert(b1 * c3 == b1 * c1 - k * (b1 * c2));
        }
    } else {
        lemma_combination_expansion(m1, m2, m3, a, k, m1.rows);
    }
}

/// Subtracting a multiple of another row keeps the determinant.
pub proof fn lemma_det_reduce(m: Matrix, a: int, b: int, k: real)
    requires
        m.complete(),
        m.square(),
        0 <= a < m.rows,
        0 <= b < m.rows,
        a != b,
    ensures
        reduce_row(m, a, b, k).det() == m.det(),
{
    let twin = copy_row(m, a, b);
    let after = reduce_row(m, a, b, k);
    lemma_det_equal_rows(twin, a, b);
    assert(row_combination(m, twin, after, a, k));
    lemma_det_combination(m, twin, after, a, k);
    lemma_distribute(k, 0real, 0real);
}

} // verus!
