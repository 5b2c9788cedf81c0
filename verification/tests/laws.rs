use evolutionary_algebra::dense::DenseMatrix;
use evolutionary_algebra::rational::Rational;
use evolutionary_algebra::sparse::SparseMatrix;

fn dense_from(rows: usize, cols: usize, values: &[(i64, i64)]) -> DenseMatrix {
    let mut m = DenseMatrix::new(rows, cols);
    for i in 0..rows {
        for j in 0..cols {
            let (n, d) = values[i * cols + j];
            m.set_v(i, j, Rational::new(n, d));
        }
    }
    m
}

fn sparse_from(rows: usize, cols: usize, values: &[(i64, i64)]) -> SparseMatrix {
    let mut m = SparseMatrix::new(rows, cols);
    for i in 0..rows {
        for j in 0..cols {
            let (n, d) = values[i * cols + j];
            m.set_v(i, j, Rational::new(n, d));
        }
    }
    m
}

fn dense_equal(a: &DenseMatrix, b: &DenseMatrix) -> bool {
    if a.row() != b.row() || a.col() != b.col() {
        return false;
    }
    for i in 0..a.row() {
        for j in 0..a.col() {
            if !a.get_v(i, j).unwrap().same(&b.get_v(i, j).unwrap()) {
                return false;
            }
        }
    }
    true
}

fn sparse_equal(a: &SparseMatrix, b: &SparseMatrix) -> bool {
    if a.row() != b.row() || a.col() != b.col() {
        return false;
    }
    for i in 0..a.row() {
        for j in 0..a.col() {
            if !a.get_v(i, j).unwrap().same(&b.get_v(i, j).unwrap()) {
                return false;
            }
        }
    }
    true
}

const A: [(i64, i64); 6] = [(1, 2), (-3, 1), (0, 1), (7, 5), (2, 1), (-1, 3)];
const B: [(i64, i64); 6] = [(1, 3), (1, 7), (4, 1), (-2, 9), (0, 1), (5, 1)];
const C: [(i64, i64); 6] = [(-1, 1), (2, 3), (1, 10), (1, 1), (-6, 1), (3, 8)];
const S: [(i64, i64); 9] = [(2, 1), (1, 3), (0, 1), (-1, 1), (4, 1), (1, 2), (3, 1), (0, 1), (5, 7)];

#[test]
fn law_addition_is_associative_and_commutative() {
    let (a, b, c) = (dense_from(2, 3, &A), dense_from(2, 3, &B), dense_from(2, 3, &C));
    assert!(dense_equal(&a.add(&b).add(&c), &a.add(&b.add(&c))));
    assert!(dense_equal(&a.add(&b), &b.add(&a)));
    let (a, b, c) = (sparse_from(2, 3, &A), sparse_from(2, 3, &B), sparse_from(2, 3, &C));
    assert!(sparse_equal(&a.add(&b).add(&c), &a.add(&b.add(&c))));
    assert!(sparse_equal(&a.add(&b), &b.add(&a)));
}

#[test]
fn law_transpose_twice_is_the_matrix() {
    let a = dense_from(2, 3, &A);
    assert!(dense_equal(&a.t().t(), &a));
    let a = sparse_from(2, 3, &A);
    assert!(sparse_equal(&a.t().t(), &a));
}

#[test]
fn law_identity_is_neutral() {
    let a = dense_from(2, 3, &A);
    assert!(dense_equal(&a.dot_mul(&DenseMatrix::eye(3)), &a));
    assert!(dense_equal(&DenseMatrix::eye(2).dot_mul(&a), &a));
    let a = sparse_from(2, 3, &A);
    assert!(sparse_equal(&a.dot_mul(&SparseMatrix::eye(3)), &a));
    assert!(sparse_equal(&SparseMatrix::eye(2).dot_mul(&a), &a));
}

#[test]
fn law_inverse_times_matrix_is_identity() {
    let a = dense_from(3, 3, &S);
    let inv = a.inv_ge().unwrap();
    assert!(dense_equal(&a.dot_mul(&inv), &DenseMatrix::eye(3)));
    assert!(dense_equal(&inv.dot_mul(&a), &DenseMatrix::eye(3)));
    let a = sparse_from(3, 3, &S);
    let inv = a.inv_ge().unwrap();
    assert!(sparse_equal(&a.dot_mul(&inv), &SparseMatrix::eye(3)));
}

#[test]
fn law_both_inverses_agree() {
    let a = dense_from(3, 3, &S);
    assert!(dense_equal(&a.inv_ge().unwrap(), &a.inv_adj().unwrap()));
    let a = sparse_from(3, 3, &S);
    assert!(sparse_equal(&a.inv_ge().unwrap(), &a.inv_adj().unwrap()));
    let b = dense_from(2, 2, &[(4, 1), (1, 1), (1, 1), (3, 1)]);
    assert!(dense_equal(&b.inv_ge().unwrap(), &b.inv_adj().unwrap()));
    let c = dense_from(
        4,
        4,
        &[
            (1, 1), (0, 1), (2, 1), (-1, 1),
            (3, 1), (0, 1), (0, 1), (5, 1),
            (2, 1), (1, 1), (4, 1), (-3, 1),
            (1, 1), (0, 1), (5, 1), (0, 1),
        ],
    );
    assert!(dense_equal(&c.inv_ge().unwrap(), &c.inv_adj().unwrap()));
}

#[test]
fn law_both_inverses_agree_on_a_single_entry() {
    let a = dense_from(1, 1, &[(2, 1)]);
    assert!(dense_equal(&a.inv_ge().unwrap(), &a.inv_adj().unwrap()));
    assert!(dense_equal(&a.dot_mul(&a.inv_adj().unwrap()), &DenseMatrix::eye(1)));
    let b = sparse_from(1, 1, &[(-5, 7)]);
    assert!(sparse_equal(&b.inv_ge().unwrap(), &b.inv_adj().unwrap()));
    assert!(sparse_equal(&b.dot_mul(&b.inv_adj().unwrap()), &SparseMatrix::eye(1)));
}

#[test]
fn law_both_determinants_agree_on_every_size() {
    for n in 0..5usize {
        let values: Vec<(i64, i64)> =
            (0..n * n).map(|k| (((k * k + 3 * k + 1) % 7) as i64 - 3, (k % 3) as i64 + 1)).collect();
        let d = dense_from(n, n, &values);
        assert!(d.det_ge().same(&d.det_adj()));
        let s = sparse_from(n, n, &values);
        assert!(s.det_ge().same(&s.det_adj()));
    }
}

#[test]
fn law_both_determinants_agree() {
    let a = dense_from(3, 3, &S);
    assert!(a.det_ge().same(&a.det_adj()));
    let a = sparse_from(3, 3, &S);
    assert!(a.det_ge().same(&a.det_adj()));
    let p = sparse_from(3, 3, &[(0, 1), (2, 1), (0, 1), (0, 1), (0, 1), (3, 1), (5, 1), (0, 1), (0, 1)]);
    assert!(p.det_ge().same(&Rational::from_int(30)));
    assert!(p.det_adj().same(&Rational::from_int(30)));
}

#[test]
fn law_solution_leaves_no_residual() {
    let a = dense_from(3, 3, &S);
    let b = dense_from(3, 2, &A);
    let x = DenseMatrix::solve_ge(&a, &b).unwrap();
    assert!(dense_equal(&a.dot_mul(&x), &b));
    assert!(a.dot_mul(&x).sub(&b).norm2_squared().is_zero());
    let a = sparse_from(3, 3, &S);
    let b = sparse_from(3, 2, &A);
    let x = SparseMatrix::solve_ge(&a, &b).unwrap();
    assert!(sparse_equal(&a.dot_mul(&x), &b));
}

fn squared_residual(a: &SparseMatrix, x: &SparseMatrix, b: &SparseMatrix) -> Rational {
    a.dot_mul(x).sub(b).norm2_squared()
}

#[test]
fn law_over_relaxation_never_lets_the_residual_grow() {
    let a = sparse_from(3, 2, &[(1, 1), (2, 1), (3, 1), (4, 1), (0, 1), (-1, 2)]);
    let b = sparse_from(3, 1, &[(1, 1), (-1, 1), (2, 3)]);
    for w in [Rational::new(1, 10), Rational::one(), Rational::new(3, 2), Rational::new(19, 10)] {
        let mut last = squared_residual(&a, &SparseMatrix::solve_sor(&a, &b, w.clone(), 0), &b);
        for k in 1..6 {
            let next = squared_residual(&a, &SparseMatrix::solve_sor(&a, &b, w.clone(), k), &b);
            assert!(!last.lt(&next));
            last = next;
        }
    }
}

#[test]
fn law_conjugate_gradients_never_let_the_residual_grow() {
    let a = sparse_from(3, 2, &[(1, 1), (2, 1), (3, 1), (4, 1), (0, 1), (-1, 2)]);
    let b = sparse_from(3, 1, &[(1, 1), (-1, 1), (2, 3)]);
    let mut last = squared_residual(&a, &SparseMatrix::solve_cg(&a, &b, 0), &b);
    for k in 1..5 {
        let next = squared_residual(&a, &SparseMatrix::solve_cg(&a, &b, k), &b);
        assert!(!last.lt(&next));
        last = next;
    }
    // After as many steps as unknowns the normal equations hold.
    let x = SparseMatrix::solve_cg(&a, &b, 2);
    let normal = a.t().dot_mul(&a);
    assert!(sparse_equal(&normal.dot_mul(&x), &a.t().dot_mul(&b)));
}
