//! Building a matrix entry by entry from a rule.
//!
//! Most operations of the algebra produce a new matrix whose entry at
//! `(i, j)` is a simple function of the operands. [`fill`] walks the indices
//! of the result once, for every such rule and for either kind of storage.

use crate::common::MatOps;
use crate::model::Matrix;
use crate::model::diag_sum;
use crate::model::dot;
use crate::model::sign;
use crate::rational::Rational;
use vstd::prelude::*;

verus! {

/// How the entry at `(i, j)` of a result follows from the operands `a`, `b`
/// and the scalar `k`.
pub enum Rule {
    /// `a[r0 + i][c0 + j]`.
    Sliced { r0: usize, c0: usize },
    /// `a[i][j]` left of `a`'s width, `b[i][j - width]` right of it.
    Joined,
    /// `k * a[i][j]`.
    Scaled,
    /// `a[i][j] * b[i][j]`.
    Hadamard,
    /// The dot product of row `i` of `a` and column `j` of `b`.
    Product,
    /// `0 - a[i][j]`.
    Negated,
    /// `a[i][j] + b[i][j]`.
    Sum,
    /// `a[i][j] - b[i][j]`.
    Difference,
    /// One on the diagonal, zero elsewhere.
    Identity,
    /// `k` everywhere.
    Constant,
    /// `a[i][j]` on the diagonal, zero elsewhere.
    Diagonal,
    /// `a[i][j]` on and above the diagonal, zero elsewhere.
    Upper,
    /// `a[i][j]` on and below the diagonal, zero elsewhere.
    Lower,
    /// `a[i][j]` above the diagonal, zero elsewhere.
    StrictUpper,
    /// `a[i][j]` below the diagonal, zero elsewhere.
    StrictLower,
    /// `a` without row `row` and column `col`.
    Minor { row: usize, col: usize },
}

/// The entry at `(i, j)` that `rule` gives.
pub open spec fn rule_value(rule: Rule, a: Matrix, b: Matrix, k: real, i: int, j: int) -> real {
    match rule {
        Rule::Sliced { r0, c0 } => a.at(r0 + i, c0 + j),
        Rule::Joined => if j < a.cols {
            a.at(i, j)
        } else {
            b.at(i, j - a.cols)
        },
        Rule::Scaled => k * a.at(i, j),
        Rule::Hadamard => a.at(i, j) * b.at(i, j),
        Rule::Product => dot(a, b, i, j, a.cols),
        Rule::Negated => 0real - a.at(i, j),
        Rule::Sum => a.at(i, j) + b.at(i, j),
        Rule::Difference => a.at(i, j) - b.at(i, j),
        Rule::Identity => if i == j {
            1real
        } else {
            0real
        },
        Rule::Constant => k,
        Rule::Diagonal => if i == j {
            a.at(i, j)
        } else {
            0real
        },
        Rule::Upper => if i <= j {
            a.at(i, j)
        } else {
            0real
        },
        Rule::Lower => if i >= j {
            a.at(i, j)
        } else {
            0real
        },
        Rule::StrictUpper => if i < j {
            a.at(i, j)
        } else {
            0real
        },
        Rule::StrictLower => if i > j {
            a.at(i, j)
        } else {
            0real
        },
        Rule::Minor { row, col } => a.at(
            if i < row {
                i
            } else {
                i + 1
            },
            if j < col {
                j
            } else {
                j + 1
            },
        ),
    }
}

/// Whether every entry that `rule` reads for a result of the given shape
/// lies inside the operands.
pub open spec fn rule_fits(rule: Rule, a: Matrix, b: Matrix, rows: nat, cols: nat) -> bool {
    match rule {
        Rule::Sliced { r0, c0 } => r0 + rows <= a.rows && c0 + cols <= a.cols,
        Rule::Joined => rows <= a.rows && rows <= b.rows && cols <= a.cols + b.cols,
        Rule::Product => rows <= a.rows && cols <= b.cols && a.cols <= b.rows,
        Rule::Hadamard | Rule::Sum | Rule::Difference => rows <= a.rows && rows <= b.rows && cols
            <= a.cols && cols <= b.cols,
        Rule::Identity | Rule::Constant => true,
        Rule::Minor { row, col } => rows + 1 <= a.rows && cols + 1 <= a.cols,
        _ => rows <= a.rows && cols <= a.cols,
    }
}

/// The matrix of the given shape that `rule` gives.
pub open spec fn rule_matrix(rule: Rule, a: Matrix, b: Matrix, k: real, rows: nat, cols: nat)
    -> Matrix {
    Matrix::tabulate(rows, cols, |i: int, j: int| rule_value(rule, a, b, k, i, j))
}

/// `(-1)^(i + j)`.
pub fn signed_one(i: usize, j: usize) -> (s: Rational)
    ensures
        s@ == sign(i + j),
{
    if i % 2 == j % 2 {
        Rational::one()
    } else {
        Rational::one().neg()
    }
}

/// Reads an entry that is known to be there.
pub fn read<M: MatOps<Rational>>(m: &M, i: usize, j: usize) -> (v: Rational)
    requires
        m.model().in_bounds(i as int, j as int),
        m.model().has(i as int, j as int),
    ensures
        v@ == m.model().at(i as int, j as int),
{
    match m.get_v(i, j) {
        Ok(v) => v,
        Err(_) => {
            assert(false);
            Rational::zero()
        },
    }
}

/// The dot product of row `i` of `a` and column `j` of `b`.
fn dot_cell<M: MatOps<Rational>>(a: &M, b: &M, i: usize, j: usize) -> (v: Rational)
    requires
        a.model().complete(),
        b.model().complete(),
        i < a.model().rows,
        j < b.model().cols,
        a.model().cols <= b.model().rows,
    ensures
        v@ == dot(a.model(), b.model(), i as int, j as int, a.model().cols),
{
    let n = a.col();
    let mut sum = Rational::zero();
    let mut k: usize = 0;
    while k < n
        invariant
            k <= n,
            n == a.model().cols,
            a.model().complete(),
            b.model().complete(),
            i < a.model().rows,
            j < b.model().cols,
            a.model().cols <= b.model().rows,
            sum@ == dot(a.model(), b.model(), i as int, j as int, k as nat),
        decreases n - k,
    {
        assert(a.model().has(i as int, k as int) <==> a.model().in_bounds(i as int, k as int));
        assert(b.model().has(k as int, j as int) <==> b.model().in_bounds(k as int, j as int));
        let x = read(a, i, k);
        let y = read(b, k, j);
        sum = sum.add(&x.mul(&y));
        k = k + 1;
    }
    sum
}

/// The entry at `(i, j)` that `rule` gives.
fn cell<M: MatOps<Rational>>(
    rule: &Rule,
    a: &M,
    b: &M,
    k: &Rational,
    i: usize,
    j: usize,
    Ghost(rows): Ghost<nat>,
    Ghost(cols): Ghost<nat>,
) -> (v: Rational)
    requires
        a.model().complete(),
        b.model().complete(),
        rule_fits(*rule, a.model(), b.model(), rows, cols),
        i < rows,
        j < cols,
    ensures
        v@ == rule_value(*rule, a.model(), b.model(), k@, i as int, j as int),
{
    let ghost am = a.model();
    let ghost bm = b.model();
    assert(forall|x: int, y: int| #[trigger] am.has(x, y) <==> am.in_bounds(x, y));
    assert(forall|x: int, y: int| #[trigger] bm.has(x, y) <==> bm.in_bounds(x, y));
    match rule {
        Rule::Sliced { r0, c0 } => {
            assert(am.has(r0 + i, c0 + j));
            let height = a.row();
            let width = a.col();
            assert(r0 + i < height && c0 + j < width);
            read(a, *r0 + i, *c0 + j)
        },
        Rule::Joined => {
            let width = a.col();
            if j < width {
                assert(am.has(i as int, j as int));
                read(a, i, j)
            } else {
                assert(bm.has(i as int, j - width));
                read(b, i, j - width)
            }
        },
        Rule::Scaled => {
            assert(am.has(i as int, j as int));
            k.mul(&read(a, i, j))
        },
        Rule::Hadamard => {
            assert(am.has(i as int, j as int));
            assert(bm.has(i as int, j as int));
            read(a, i, j).mul(&read(b, i, j))
        },
        Rule::Product => dot_cell(a, b, i, j),
        Rule::Negated => {
            assert(am.has(i as int, j as int));
            Rational::zero().sub(&read(a, i, j))
        },
        Rule::Sum => {
            assert(am.has(i as int, j as int));
            assert(bm.has(i as int, j as int));
            read(a, i, j).add(&read(b, i, j))
        },
        Rule::Difference => {
            assert(am.has(i as int, j as int));
            assert(bm.has(i as int, j as int));
            read(a, i, j).sub(&read(b, i, j))
        },
        Rule::Identity => {
            if i == j {
                Rational::one()
            } else {
                Rational::zero()
            }
        },
        Rule::Constant => k.clone(),
        Rule::Diagonal => {
            if i == j {
                assert(am.has(i as int, j as int));
                read(a, i, j)
            } else {
                Rational::zero()
            }
        },
        Rule::Upper => {
            if i <= j {
                assert(am.has(i as int, j as int));
                read(a, i, j)
            } else {
                Rational::zero()
            }
        },
        Rule::Lower => {
            if i >= j {
                assert(am.has(i as int, j as int));
                read(a, i, j)
            } else {
                Rational::zero()
            }
        },
        Rule::StrictUpper => {
            if i < j {
                assert(am.has(i as int, j as int));
                read(a, i, j)
            } else {
                Rational::zero()
            }
        },
        Rule::StrictLower => {
            if i > j {
                assert(am.has(i as int, j as int));
                read(a, i, j)
            } else {
                Rational::zero()
            }
        },
        Rule::Minor { row, col } => {
            let height = a.row();
            let width = a.col();
            assert(i + 1 < height && j + 1 < width);
            let ri = if i < *row {
                i
            } else {
                i + 1
            };
            let cj = if j < *col {
                j
            } else {
                j + 1
            };
            assert(am.has(ri as int, cj as int));
            read(a, ri, cj)
        },
    }
}

/// The sum of the first `min(rows, cols)` diagonal entries.
pub fn trace_of<M: MatOps<Rational>>(m: &M) -> (sum: Rational)
    requires
        m.model().complete(),
    ensures
        sum@ == m.model().trace(),
{
    let rows = m.row();
    let cols = m.col();
    let num = if rows <= cols {
        rows
    } else {
        cols
    };
    let mut sum = Rational::zero();
    let mut i: usize = 0;
    while i < num
        invariant
            i <= num,
            num <= m.model().rows,
            num <= m.model().cols,
            m.model().complete(),
            sum@ == diag_sum(m.model(), i as nat),
        decreases num - i,
    {
        assert(m.model().has(i as int, i as int) <==> m.model().in_bounds(i as int, i as int));
        sum = sum.add(&read(m, i, i));
        i = i + 1;
    }
    sum
}

/// Whether an entry is stored at every index inside the shape.
pub fn all_present<M: MatOps<Rational>>(m: &M) -> (b: bool)
    ensures
        b == m.model().complete(),
{
    let rows = m.row();
    let cols = m.col();
    proof {
        m.lemma_model_bounded();
    }
    let mut i: usize = 0;
    while i < rows
        invariant
            i <= rows,
            rows == m.model().rows,
            cols == m.model().cols,
            m.model().bounded(),
            forall|x: int, y: int| 0 <= x < i && 0 <= y < cols ==> #[trigger] m.model().has(x, y),
        decreases rows - i,
    {
        let mut j: usize = 0;
        while j < cols
            invariant
                i < rows,
                j <= cols,
                rows == m.model().rows,
                cols == m.model().cols,
                m.model().bounded(),
                forall|x: int, y: int|
                    0 <= x < i && 0 <= y < cols ==> #[trigger] m.model().has(x, y),
                forall|y: int| 0 <= y < j ==> #[trigger] m.model().has(i as int, y),
            decreases cols - j,
        {
            match m.get_v(i, j) {
                Ok(_) => {},
                Err(_) => {
                    assert(!m.model().has(i as int, j as int));
                    assert(m.model().in_bounds(i as int, j as int));
                    return false;
                },
            }
            j = j + 1;
        }
        i = i + 1;
    }
    true
}

/// Overwrites every entry of `out` with what `rule` gives.
pub fn fill<M: MatOps<Rational>>(out: &mut M, rule: &Rule, a: &M, b: &M, k: &Rational)
    requires
        a.model().complete(),
        b.model().complete(),
        rule_fits(*rule, a.model(), b.model(), old(out).model().rows, old(out).model().cols),
    ensures
        final(out).model() == rule_matrix(
            *rule,
            a.model(),
            b.model(),
            k@,
            old(out).model().rows,
            old(out).model().cols,
        ),
{
    let rows = out.row();
    let cols = out.col();
    let mut i: usize = 0;
    while i < rows
        invariant
            i <= rows,
            out.model().rows == rows,
            out.model().cols == cols,
            rows == old(out).model().rows,
            cols == old(out).model().cols,
            a.model().complete(),
            b.model().complete(),
            rule_fits(*rule, a.model(), b.model(), rows as nat, cols as nat),
            forall|x: int, y: int|
                0 <= x < i && 0 <= y < cols ==> #[trigger] out.model().has(x, y) && out.model().at(
                    x,
                    y,
                ) == rule_value(*rule, a.model(), b.model(), k@, x, y),
        decreases rows - i,
    {
        let mut j: usize = 0;
        while j < cols
            invariant
                i < rows,
                j <= cols,
                out.model().rows == rows,
                out.model().cols == cols,
                a.model().complete(),
                b.model().complete(),
                rule_fits(*rule, a.model(), b.model(), rows as nat, cols as nat),
                forall|x: int, y: int|
                    0 <= x < i && 0 <= y < cols ==> #[trigger] out.model().has(x, y)
                        && out.model().at(x, y) == rule_value(
                        *rule,
                        a.model(),
                        b.model(),
                        k@,
                        x,
                        y,
                    ),
                forall|y: int|
                    0 <= y < j ==> #[trigger] out.model().has(i as int, y) && out.model().at(
                        i as int,
                        y,
                    ) == rule_value(*rule, a.model(), b.model(), k@, i as int, y),
            decreases cols - j,
        {
            let v = cell(rule, a, b, k, i, j, Ghost(rows as nat), Ghost(cols as nat));
            let ghost before = out.model();
            out.set_v(i, j, v);
            proof {
                assert forall|x: int, y: int| 0 <= x < i && 0 <= y < cols implies #[trigger]
                    out.model().has(x, y) && out.model().at(x, y) == rule_value(
                    *rule,
                    a.model(),
                    b.model(),
                    k@,
                    x,
                    y,
                ) by {
                    assert(before.has(x, y));
                }
                assert forall|y: int| 0 <= y < j + 1 implies #[trigger] out.model().has(i as int, y)
                    && out.model().at(i as int, y) == rule_value(
                    *rule,
                    a.model(),
                    b.model(),
                    k@,
                    i as int,
                    y,
                ) by {
                    if y < j {
                        assert(before.has(i as int, y));
                    }
                }
            }
            j = j + 1;
        }
        proof {
            let ghost now = out.model();
            assert forall|x: int, y: int| 0 <= x < i + 1 && 0 <= y < cols implies #[trigger]
                now.has(x, y) && now.at(x, y) == rule_value(
                *rule,
                a.model(),
                b.model(),
                k@,
                x,
                y,
            ) by {
                if x == i {
                    assert(now.has(i as int, y));
                }
            }
        }
        i = i + 1;
    }
    proof {
        out.lemma_model_bounded();
        let want = rule_matrix(*rule, a.model(), b.model(), k@, rows as nat, cols as nat);
        let got = out.model();
        assert forall|x: int, y: int| #[trigger] got.has(x, y) <==> got.in_bounds(x, y) by {}
        assert forall|x: int, y: int| got.in_bounds(x, y) implies #[trigger] got.at(x, y)
            == want.at(x, y) by {
            assert(got.has(x, y));
        }
        crate::model::lemma_equal(got, want);
    }
}

} // verus!
