//! The adjoint divided by the determinant is an inverse.

use crate::algebra::lemma_dot_scaled;
use crate::det::lemma_det_expansion;
use crate::det::lemma_expansion_step;
use crate::det_rows::lemma_det_combination;
use crate::det_rows::row_combination;
use crate::det_swap::lemma_det_equal_rows;
use crate::iterative::right_inverse;
use crate::model::Matrix;
use crate::model::dot;
use crate::model::expansion;
use crate::model::lemma_equal;
use crate::model::sign;
use crate::reals::lemma_commute;
use crate::reals::lemma_distribute;
use crate::reals::lemma_gather_signs;
use crate::reals::lemma_mul_one;
use crate::reals::lemma_mul_zero;
use crate::reals::lemma_quotient;
use vstd::prelude::*;

verus! {

/// `m` with row `j` replaced by the unit vector of column `k`.
pub open spec fn unit_row(m: Matrix, j: int, k: int) -> Matrix {
    Matrix::tabulate(
        m.rows,
        m.cols,
        |x: int, y: int|
            if x == j {
                if y == k {
                    1real
                } else {
                    0real
                }
            } else {
                m.at(x, y)
            },
    )
}

/// `m` with row `j` replaced by the first `c` entries of row `i`, and zero
/// after them.
pub open spec fn filled_row(m: Matrix, i: int, j: int, c: int) -> Matrix {
    Matrix::tabulate(
        m.rows,
        m.cols,
        |x: int, y: int|
            if x == j {
                if y < c {
                    m.at(i, y)
                } else {
                    0real
                }
            } else {
                m.at(x, y)
            },
    )
}

/// A matrix with a row of zeros has determinant zero.
pub proof fn lemma_det_zero_row(m: Matrix, j: int)
    requires
        m.complete(),
        m.square(),
        0 <= j < m.rows,
        forall|y: int| 0 <= y < m.cols ==> #[trigger] m.at(j, y) == 0real,
    ensures
        m.det() == 0real,
{
    lemma_mul_zero(1real);
    assert(row_combination(m, m, m, j, 1real));
    lemma_det_combination(m, m, m, j, 1real);
    lemma_mul_one(m.det());
}

/// The parities of two sums agree when the sums differ by an even number.
proof fn lemma_sign_shift(a: int, b: int)
    requires
        (a - b) % 2 == 0,
    ensures
        sign(a) == sign(b),
{
}

/// The expansion of a matrix whose row `j` is the first unit vector: only
/// term `j` is left.
proof fn lemma_unit_expansion_first(m: Matrix, j: int, t: nat)
    requires
        m.complete(),
        m.square(),
        m.rows >= 3,
        0 <= j < m.rows,
        t <= m.rows,
    ensures
        expansion(unit_row(m, j, 0), t) == if t > j {
            sign(j) * m.minor(j, 0).det()
        } else {
            0real
        },
    decreases t,
{
    let u = unit_row(m, j, 0);
    if t == 0 {
        assert(expansion(u, 0) == 0real);
    } else {
        let s = t - 1;
        lemma_unit_expansion_first(m, j, s as nat);
        lemma_expansion_step(u, t);
        if s == j {
            lemma_equal(u.minor(j, 0), m.minor(j, 0));
            assert(u.at(j, 0) == 1real);
            lemma_mul_one(sign(j));
        } else {
            let sub = u.minor(s, 0);
            let row = if s < j {
                j - 1
            } else {
                j
            };
            assert forall|y: int| 0 <= y < sub.cols implies #[trigger] sub.at(row, y) == 0real by {
                assert(u.at(j, y + 1) == 0real);
            }
            lemma_det_zero_row(sub, row);
            lemma_mul_zero(sign(s) * u.at(s, 0));
        }
    }
}

/// The expansion of a matrix whose row `j` is a later unit vector, against
/// the expansion of the minor that the unit entry leaves.
proof fn lemma_unit_expansion_later(m: Matrix, j: int, k: int, t: nat)
    requires
        m.complete(),
        m.square(),
        m.rows >= 3,
        0 <= j < m.rows,
        0 < k < m.cols,
        t <= m.rows,
    ensures
        expansion(unit_row(m, j, k), t) == sign(j + k) * expansion(
            m.minor(j, k),
            if t <= j {
                t
            } else {
                (t - 1) as nat
            },
        ),
    decreases m.rows, t,
{
    let u = unit_row(m, j, k);
    let mm = m.minor(j, k);
    let sg = sign(j + k);
    if t == 0 {
        assert(expansion(u, 0) == 0real);
        assert(expansion(mm, 0) == 0real);
        lemma_mul_zero(sg);
    } else {
        let s = t - 1;
        lemma_unit_expansion_later(m, j, k, s as nat);
        lemma_expansion_step(u, t);
        if s == j {
            assert(u.at(j, 0) == 0real);
            lemma_mul_zero(sign(s));
            lemma_mul_zero(u.minor(s, 0).det());
            assert(sign(s) * 0real * u.minor(s, 0).det() == 0real);
        } else {
            let row = if s < j {
                j - 1
            } else {
                j
            };
            let pos = if s < j {
                s
            } else {
                s - 1
            };
            let sub = m.minor(s, 0);
            lemma_equal(u.minor(s, 0), unit_row(sub, row, k - 1));
            lemma_unit_row(sub, row, k - 1);
            lemma_equal(mm.minor(pos, 0), sub.minor(row, k - 1));
            lemma_expansion_step(mm, (pos + 1) as nat);
            let x = m.at(s, 0);
            let d = sub.minor(row, k - 1).det();
            let s1 = sign(s);
            let s2 = sign(row + k - 1);
            let s4 = sign(pos);
            assert(u.at(s, 0) == x);
            assert(mm.at(pos, 0) == x);
            assert(s1 * s2 == sg * s4) by {
                lemma_sign_shift(s + row + k - 1, j + k + pos);
                lemma_mul_one(1real);
                lemma_two_signs_unit(s1, s2, sg, s4, s, row + k - 1, j + k, pos);
            }
            lemma_gather_signs(s1, s2, x, d);
            lemma_gather_signs(sg, s4, x, d);
            lemma_distribute(sg, expansion(mm, pos as nat), s4 * x * d);
        }
    }
}

/// Products of two signs agree when the sums of their exponents do.
proof fn lemma_two_signs_unit(
    s1: real,
    s2: real,
    s3: real,
    s4: real,
    a: int,
    b: int,
    c: int,
    d: int,
)
    requires
        s1 == sign(a),
        s2 == sign(b),
        s3 == sign(c),
        s4 == sign(d),
        sign(a + b) == sign(c + d),
    ensures
        s1 * s2 == s3 * s4,
{
    assert(1real * 1real == 1real) by (nonlinear_arith);
    assert(1real * (-1real) == -1real) by (nonlinear_arith);
    assert((-1real) * 1real == -1real) by (nonlinear_arith);
    assert((-1real) * (-1real) == 1real) by (nonlinear_arith);
}

/// The determinant of a matrix whose row `j` is the unit vector of column
/// `k` is the cofactor of `(j, k)`.
pub proof fn lemma_unit_row(m: Matrix, j: int, k: int)
    requires
        m.complete(),
        m.square(),
        m.rows >= 2,
        0 <= j < m.rows,
        0 <= k < m.cols,
    ensures
        unit_row(m, j, k).det() == sign(j + k) * m.minor(j, k).det(),
    decreases m.rows, m.rows + 1,
{
    let u = unit_row(m, j, k);
    let mm = m.minor(j, k);
    if m.rows == 2 {
        let e = m.at(1 - j, 1 - k);
        assert(mm.det() == e);
        lemma_mul_one(e);
        lemma_mul_zero(e);
        lemma_mul_zero(m.at(1 - j, k));
        lemma_mul_one(m.at(1 - j, k));
        lemma_mul_zero(1real);
        lemma_mul_zero(0real);
        assert((-1real) * e == 0real - e) by (nonlinear_arith);
    } else {
        lemma_det_expansion(u);
        if k == 0 {
            lemma_unit_expansion_first(m, j, m.rows);
        } else {
            lemma_unit_expansion_later(m, j, k, m.rows);
            lemma_det_expansion(mm);
        }
    }
}

/// Row `i` of `m` against column `j` of its adjoint, over the first `c`
/// columns, is the determinant of `m` with row `j` filled from row `i`.
proof fn lemma_adjoint_dot(m: Matrix, i: int, j: int, c: nat)
    requires
        m.complete(),
        m.square(),
        m.rows >= 2,
        0 <= i < m.rows,
        0 <= j < m.rows,
        c <= m.cols,
    ensures
        dot(m, m.adjoint(), i, j, c) == filled_row(m, i, j, c as int).det(),
    decreases c,
{
    let f = filled_row(m, i, j, c as int);
    if c == 0 {
        lemma_det_zero_row(f, j);
    } else {
        let b = c - 1;
        lemma_adjoint_dot(m, i, j, b as nat);
        let g = filled_row(m, i, j, b);
        let u = unit_row(m, j, b);
        let x = m.at(i, b);
        let k = 0real - x;
        lemma_unit_row(m, j, b);
        assert(row_combination(g, u, f, j, k)) by {
            lemma_mul_zero(k);
            lemma_mul_one(k);
            assert forall|y: int| 0 <= y < g.cols implies #[trigger] f.at(j, y) == g.at(j, y) - k
                * u.at(j, y) by {}
        }
        lemma_det_combination(g, u, f, j, k);
        let d = u.det();
        assert(0real - k * d == x * d) by (nonlinear_arith)
            requires
                k == 0real - x,
        ;
        assert(m.adjoint().at(b, j) == sign(j + b) * m.minor(j, b).det());
    }
}

/// A matrix times its adjoint is the identity times the determinant.
pub proof fn lemma_adjoint_product(m: Matrix, i: int, j: int)
    requires
        m.complete(),
        m.square(),
        m.rows >= 2,
        0 <= i < m.rows,
        0 <= j < m.rows,
    ensures
        dot(m, m.adjoint(), i, j, m.cols) == if i == j {
            m.det()
        } else {
            0real
        },
{
    lemma_adjoint_dot(m, i, j, m.cols);
    let f = filled_row(m, i, j, m.cols as int);
    if i == j {
        lemma_equal(f, m);
    } else {
        lemma_det_equal_rows(f, i, j);
    }
}

/// Where the determinant is not zero, the adjoint divided by the
/// determinant is a right inverse.
pub proof fn lemma_adjoint_inverse(m: Matrix)
    requires
        m.complete(),
        m.square(),
        m.det() != 0real,
    ensures
        right_inverse(m, m.adjoint().scale(1real / m.det())),
{
    let d = m.det();
    let k = 1real / d;
    let x = m.adjoint().scale(k);
    let p = m.product(x);
    let unit = Matrix::identity(m.rows);
    lemma_quotient(1real, d);
    lemma_mul_zero(k);
    assert forall|i: int, j: int| p.in_bounds(i, j) implies #[trigger] p.at(i, j) == unit.at(
        i,
        j,
    ) by {
        if m.rows == 1 {
            let h = m.at(0, 0);
            assert(m.minor(0, 0).det() == 1real);
            lemma_mul_one(1real);
            lemma_mul_one(k);
            assert(m.adjoint().at(0, 0) == 1real);
            assert(x.at(0, 0) == k);
            assert(dot(m, x, 0, 0, 1) == dot(m, x, 0, 0, 0) + h * k);
            assert(dot(m, x, 0, 0, 0) == 0real);
            lemma_commute(h, k);
        } else {
            lemma_dot_scaled(m, m.adjoint(), k, i, j, m.cols);
            lemma_adjoint_product(m, i, j);
        }
    }
    lemma_equal(p, unit);
}

} // verus!
