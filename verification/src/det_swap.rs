//! Exchanging rows changes the sign of the determinant.

use crate::det::lemma_expansion_step;
use crate::det::term;
use crate::kernel::swap_rows;
use crate::model::Matrix;
use crate::model::expansion;
use crate::model::lemma_equal;
use crate::model::sign;
use vstd::prelude::*;

verus! {

/// Exchanging two neighbouring rows negates the expansion, term by term
/// but for the two terms of the exchanged rows, which change places.
proof fn lemma_adjacent_expansion(m: Matrix, p: int, k: nat)
    requires
        m.complete(),
        m.square(),
        m.rows >= 3,
        0 <= p,
        p + 1 < m.rows,
        k <= m.rows,
    ensures
        expansion(swap_rows(m, p, p + 1), k) == if k == p + 1 {
            0real - expansion(m, p as nat) - term(m, p + 1)
        } else {
            0real - expansion(m, k)
        },
    decreases m.rows, k,
{
    let s = swap_rows(m, p, p + 1);
    if k == 0 {
        assert(expansion(s, 0) == 0real);
        assert(expansion(m, 0) == 0real);
    } else {
        let t = k - 1;
        lemma_adjacent_expansion(m, p, t as nat);
        lemma_expansion_step(s, k);
        lemma_expansion_step(m, k);
        let sg = sign(t);
        if t == p {
            lemma_equal(s.minor(p, 0), m.minor(p + 1, 0));
            let x = m.at(p + 1, 0);
            let d = m.minor(p + 1, 0).det();
            let sg1 = sign(p + 1);
            assert(s.at(p, 0) == x);
            assert(sg == 0real - sg1);
            assert((0real - sg1) * x * d == 0real - sg1 * x * d) by (nonlinear_arith);
        } else if t == p + 1 {
            lemma_equal(s.minor(p + 1, 0), m.minor(p, 0));
            lemma_expansion_step(m, (p + 1) as nat);
            let x = m.at(p, 0);
            let d = m.minor(p, 0).det();
            let sg0 = sign(p);
            assert(s.at(p + 1, 0) == x);
            assert(sg == 0real - sg0);
            assert((0real - sg0) * x * d == 0real - sg0 * x * d) by (nonlinear_arith);
        } else {
            let q = if t < p {
                p - 1
            } else {
                p
            };
            let sub = m.minor(t, 0);
            lemma_equal(s.minor(t, 0), swap_rows(sub, q, q + 1));
            lemma_adjacent_swap(sub, q);
            let x = m.at(t, 0);
            let d = sub.det();
            let e = s.minor(t, 0).det();
            assert(s.at(t, 0) == x);
            assert(e == 0real - d);
            assert(sg * x * (0real - d) == 0real - sg * x * d) by (nonlinear_arith);
        }
    }
}

/// Exchanging two neighbouring rows negates the determinant.
pub proof fn lemma_adjacent_swap(m: Matrix, p: int)
    requires
        m.complete(),
        m.square(),
        0 <= p,
        p + 1 < m.rows,
    ensures
        swap_rows(m, p, p + 1).det() == 0real - m.det(),
    decreases m.rows, m.rows + 1,
{
    let s = swap_rows(m, p, p + 1);
    if m.rows == 2 {
        let a = m.at(0, 0);
        let b = m.at(0, 1);
        let c = m.at(1, 0);
        let d = m.at(1, 1);
        assert(s.at(0, 0) == c && s.at(0, 1) == d && s.at(1, 0) == a && s.at(1, 1) == b);
        assert(c * b - d * a == 0real - (a * d - b * c)) by (nonlinear_arith);
    } else {
        lemma_adjacent_expansion(m, p, m.rows);
    }
}

/// Exchanging two rows negates the determinant.
pub proof fn lemma_det_swap(m: Matrix, p: int, q: int)
    requires
        m.complete(),
        m.square(),
        0 <= p < q < m.rows,
    ensures
        swap_rows(m, p, q).det() == 0real - m.det(),
        swap_rows(m, q, p).det() == 0real - m.det(),
    decreases q - p,
{
    lemma_equal(swap_rows(m, q, p), swap_rows(m, p, q));
    if q == p + 1 {
        lemma_adjacent_swap(m, p);
    } else {
        let m1 = swap_rows(m, p, p + 1);
        let m2 = swap_rows(m1, p + 1, q);
        let m3 = swap_rows(m2, p, p + 1);
        lemma_adjacent_swap(m, p);
        lemma_det_swap(m1, p + 1, q);
        lemma_adjacent_swap(m2, p);
        lemma_equal(m3, swap_rows(m, p, q));
    }
}

/// A matrix with two equal rows has determinant zero.
pub proof fn lemma_det_equal_rows(m: Matrix, a: int, b: int)
    requires
        m.complete(),
        m.square(),
        0 <= a < m.rows,
        0 <= b < m.rows,
        a != b,
        forall|j: int| 0 <= j < m.cols ==> #[trigger] m.at(a, j) == m.at(b, j),
    ensures
        m.det() == 0real,
{
    lemma_equal(swap_rows(m, a, b), m);
    if a < b {
        lemma_det_swap(m, a, b);
    } else {
        lemma_det_swap(m, b, a);
    }
}

} // verus!
