//! The mathematical model of a matrix and of the operations on it.
//!
//! A [`Matrix`] is a shape together with a map from indices to real numbers.
//! A matrix is *complete* when the map is defined on exactly the indices
//! inside the shape; the algebra below is stated for complete matrices.

use vstd::prelude::*;

verus! {

/// A shape and the entries known inside it.
#[verifier::ext_equal]
pub struct Matrix {
    pub rows: nat,
    pub cols: nat,
    pub cells: Map<(int, int), real>,
}

/// `(-1)^k`.
pub open spec fn sign(k: int) -> real {
    if k % 2 == 0 {
        1real
    } else {
        -1real
    }
}

/// The smaller of two sizes.
pub open spec fn min_nat(a: nat, b: nat) -> nat {
    if a <= b {
        a
    } else {
        b
    }
}

/// The sum of `a[i][k] * b[k][j]` over the first `n` values of `k`.
pub open spec fn dot(a: Matrix, b: Matrix, i: int, j: int, n: nat) -> real
    decreases n,
{
    if n == 0 {
        0real
    } else {
        dot(a, b, i, j, (n - 1) as nat) + a.at(i, n - 1) * b.at(n - 1, j)
    }
}

/// The sum of the first `n` diagonal entries.
pub open spec fn diag_sum(m: Matrix, n: nat) -> real
    decreases n,
{
    if n == 0 {
        0real
    } else {
        diag_sum(m, (n - 1) as nat) + m.at(n - 1, n - 1)
    }
}

/// The product of the first `n` diagonal entries.
pub open spec fn diag_product(m: Matrix, n: nat) -> real
    decreases n,
{
    if n == 0 {
        1real
    } else {
        diag_product(m, (n - 1) as nat) * m.at(n - 1, n - 1)
    }
}

/// The first `n` terms of the cofactor expansion of `m` along column 0.
pub open spec fn expansion(m: Matrix, n: nat) -> real
    decreases m.rows, n,
{
    if n == 0 || m.rows == 0 {
        0real
    } else {
        expansion(m, (n - 1) as nat) + sign(n - 1) * m.at(n - 1, 0) * m.minor(n - 1, 0).det()
    }
}

impl Matrix {
    /// Whether `(i, j)` lies inside the shape.
    pub open spec fn in_bounds(self, i: int, j: int) -> bool {
        0 <= i < self.rows && 0 <= j < self.cols
    }

    /// Whether the entry at `(i, j)` is known.
    pub open spec fn has(self, i: int, j: int) -> bool {
        self.cells.dom().contains((i, j))
    }

    /// The entry at `(i, j)`.
    pub open spec fn at(self, i: int, j: int) -> real {
        self.cells[(i, j)]
    }

    /// No entry is known outside the shape.
    pub open spec fn bounded(self) -> bool {
        forall|i: int, j: int| #[trigger] self.has(i, j) ==> self.in_bounds(i, j)
    }

    /// Exactly the entries inside the shape are known.
    pub open spec fn complete(self) -> bool {
        forall|i: int, j: int| #[trigger] self.has(i, j) <==> self.in_bounds(i, j)
    }

    /// Whether the two matrices have the same shape.
    pub open spec fn same_shape(self, other: Matrix) -> bool {
        self.rows == other.rows && self.cols == other.cols
    }

    /// Whether the matrix has as many rows as columns.
    pub open spec fn square(self) -> bool {
        self.rows == self.cols
    }

    /// The matrix of the given shape without any entry.
    pub open spec fn blank(rows: nat, cols: nat) -> Matrix {
        Matrix { rows, cols, cells: Map::empty() }
    }

    /// The complete matrix of the given shape whose entry at `(i, j)` is
    /// `f(i, j)`.
    pub open spec fn tabulate(rows: nat, cols: nat, f: spec_fn(int, int) -> real) -> Matrix {
        Matrix {
            rows,
            cols,
            cells: Map::new(
                |p: (int, int)| 0 <= p.0 < rows && 0 <= p.1 < cols,
                |p: (int, int)| f(p.0, p.1),
            ),
        }
    }

    /// The matrix with the entry at `(i, j)` set to `v`.
    pub open spec fn with(self, i: int, j: int, v: real) -> Matrix {
        Matrix { rows: self.rows, cols: self.cols, cells: self.cells.insert((i, j), v) }
    }

    /// Every entry is `v`.
    pub open spec fn constant(rows: nat, cols: nat, v: real) -> Matrix {
        Matrix::tabulate(rows, cols, |i: int, j: int| v)
    }

    /// The identity matrix of size `n`.
    pub open spec fn identity(n: nat) -> Matrix {
        Matrix::tabulate(
            n,
            n,
            |i: int, j: int|
                if i == j {
                    1real
                } else {
                    0real
                },
        )
    }

    /// Shape swapped, entry `(i, j)` moved to `(j, i)`.
    pub open spec fn transpose(self) -> Matrix {
        Matrix::tabulate(self.cols, self.rows, |i: int, j: int| self.at(j, i))
    }

    /// Rows `r0..=r1` and columns `c0..=c1`, indexed again from zero.
    pub open spec fn slice(self, r0: int, r1: int, c0: int, c1: int) -> Matrix {
        Matrix::tabulate(
            (r1 - r0 + 1) as nat,
            (c1 - c0 + 1) as nat,
            |i: int, j: int| self.at(r0 + i, c0 + j),
        )
    }

    /// `other` appended to the right of `self`.
    pub open spec fn concat(self, other: Matrix) -> Matrix {
        Matrix::tabulate(
            self.rows,
            self.cols + other.cols,
            |i: int, j: int|
                if j < self.cols {
                    self.at(i, j)
                } else {
                    other.at(i, j - self.cols)
                },
        )
    }

    /// Every entry multiplied by `k`.
    pub open spec fn scale(self, k: real) -> Matrix {
        Matrix::tabulate(self.rows, self.cols, |i: int, j: int| k * self.at(i, j))
    }

    /// The entrywise product.
    pub open spec fn hadamard(self, other: Matrix) -> Matrix {
        Matrix::tabulate(self.rows, self.cols, |i: int, j: int| self.at(i, j) * other.at(i, j))
    }

    /// The matrix product.
    pub open spec fn product(self, other: Matrix) -> Matrix {
        Matrix::tabulate(
            self.rows,
            other.cols,
            |i: int, j: int| dot(self, other, i, j, self.cols),
        )
    }

    /// The entrywise sum.
    pub open spec fn sum(self, other: Matrix) -> Matrix {
        Matrix::tabulate(self.rows, self.cols, |i: int, j: int| self.at(i, j) + other.at(i, j))
    }

    /// The entrywise difference.
    pub open spec fn difference(self, other: Matrix) -> Matrix {
        Matrix::tabulate(self.rows, self.cols, |i: int, j: int| self.at(i, j) - other.at(i, j))
    }

    /// The entrywise additive inverse.
    pub open spec fn negation(self) -> Matrix {
        Matrix::tabulate(self.rows, self.cols, |i: int, j: int| 0real - self.at(i, j))
    }

    /// The diagonal kept, every other entry zero.
    pub open spec fn diagonal(self) -> Matrix {
        Matrix::tabulate(
            self.rows,
            self.cols,
            |i: int, j: int|
                if i == j {
                    self.at(i, j)
                } else {
                    0real
                },
        )
    }

    /// The diagonal and what lies above it kept, every other entry zero.
    pub open spec fn upper(self) -> Matrix {
        Matrix::tabulate(
            self.rows,
            self.cols,
            |i: int, j: int|
                if i <= j {
                    self.at(i, j)
                } else {
                    0real
                },
        )
    }

    /// The diagonal and what lies below it kept, every other entry zero.
    pub open spec fn lower(self) -> Matrix {
        Matrix::tabulate(
            self.rows,
            self.cols,
            |i: int, j: int|
                if i >= j {
                    self.at(i, j)
                } else {
                    0real
                },
        )
    }

    /// What lies above the diagonal kept, every other entry zero.
    pub open spec fn strict_upper(self) -> Matrix {
        Matrix::tabulate(
            self.rows,
            self.cols,
            |i: int, j: int|
                if i < j {
                    self.at(i, j)
                } else {
                    0real
                },
        )
    }

    /// What lies below the diagonal kept, every other entry zero.
    pub open spec fn strict_lower(self) -> Matrix {
        Matrix::tabulate(
            self.rows,
            self.cols,
            |i: int, j: int|
                if i > j {
                    self.at(i, j)
                } else {
                    0real
                },
        )
    }

    /// The sum of the diagonal entries.
    pub open spec fn trace(self) -> real {
        diag_sum(self, min_nat(self.rows, self.cols))
    }

    /// The matrix without row `r` and column `c`.
    pub open spec fn minor(self, r: int, c: int) -> Matrix {
        Matrix::tabulate(
            (self.rows - 1) as nat,
            (self.cols - 1) as nat,
            |i: int, j: int|
                self.at(
                    if i < r {
                        i
                    } else {
                        i + 1
                    },
                    if j < c {
                        j
                    } else {
                        j + 1
                    },
                ),
        )
    }

    /// The determinant by cofactor expansion along column 0. A matrix that is
    /// not square has determinant zero; the matrix without rows has
    /// determinant one, the empty product.
    pub open spec fn det(self) -> real
        decreases self.rows, self.rows + 1,
    {
        if self.rows != self.cols {
            0real
        } else if self.rows == 0 {
            1real
        } else if self.rows == 1 {
            self.at(0, 0)
        } else if self.rows == 2 {
            self.at(0, 0) * self.at(1, 1) - self.at(0, 1) * self.at(1, 0)
        } else {
            expansion(self, self.rows)
        }
    }

    /// The transpose of the matrix of cofactors.
    pub open spec fn adjoint(self) -> Matrix {
        Matrix::tabulate(
            self.cols,
            self.rows,
            |i: int, j: int| sign(j + i) * self.minor(j, i).det(),
        )
    }
}

/// A tabulated matrix is complete and holds the tabulated values.
pub proof fn lemma_tabulate(rows: nat, cols: nat, f: spec_fn(int, int) -> real)
    ensures
        Matrix::tabulate(rows, cols, f).rows == rows,
        Matrix::tabulate(rows, cols, f).cols == cols,
        Matrix::tabulate(rows, cols, f).complete(),
        forall|i: int, j: int|
            0 <= i < rows && 0 <= j < cols ==> #[trigger] Matrix::tabulate(rows, cols, f).at(i, j)
                == f(i, j),
{
}

/// Two complete matrices of one shape with the same entries are the same
/// matrix.
pub proof fn lemma_equal(a: Matrix, b: Matrix)
    requires
        a.complete(),
        b.complete(),
        a.same_shape(b),
        forall|i: int, j: int| a.in_bounds(i, j) ==> #[trigger] a.at(i, j) == b.at(i, j),
    ensures
        a == b,
{
    assert forall|p: (int, int)| a.cells.dom().contains(p) <==> b.cells.dom().contains(p) by {
        assert(a.has(p.0, p.1) <==> a.in_bounds(p.0, p.1));
        assert(b.has(p.0, p.1) <==> b.in_bounds(p.0, p.1));
    }
    assert forall|p: (int, int)| a.cells.dom().contains(p) implies a.cells[p] == b.cells[p] by {
        assert(a.has(p.0, p.1));
        assert(a.at(p.0, p.1) == b.at(p.0, p.1));
    }
    assert(a.cells =~= b.cells);
}

} // verus!
