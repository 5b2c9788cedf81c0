use evolutionary_algebra::common::key;
use evolutionary_algebra::common::MatOps;
use evolutionary_algebra::common::MatrixError;
use evolutionary_algebra::dense::DenseMatrix;
use evolutionary_algebra::fill::all_present;
use evolutionary_algebra::fill::fill;
use evolutionary_algebra::fill::read;
use evolutionary_algebra::fill::signed_one;
use evolutionary_algebra::fill::trace_of;
use evolutionary_algebra::fill::Rule;
use evolutionary_algebra::gauss::det_reduce;
use evolutionary_algebra::gauss::divide_row;
use evolutionary_algebra::gauss::permute_rows;
use evolutionary_algebra::gauss::pivoting;
use evolutionary_algebra::gauss::put;
use evolutionary_algebra::gauss::subtract_row;
use evolutionary_algebra::rational::Rational;
use evolutionary_algebra::sparse::SparseMatrix;
use evolutionary_algebra::text::layout;
use evolutionary_algebra::text::render;

fn filled<M: MatOps<Rational>>(mut m: M, cols: usize, values: &[i64]) -> M {
    for (k, v) in values.iter().enumerate() {
        m.set_v(k / cols, k % cols, Rational::from_int(*v));
    }
    m
}

fn holds<M: MatOps<Rational>>(m: &M, rows: usize, cols: usize, values: &[(i64, i64)]) -> bool {
    m.row() == rows
        && m.col() == cols
        && (0..rows * cols).all(|k| match m.get_v(k / cols, k % cols) {
            Ok(v) => v.same(&Rational::new(values[k].0, values[k].1)),
            Err(_) => false,
        })
}

fn units(values: &[i64]) -> Vec<(i64, i64)> {
    values.iter().map(|v| (*v, 1)).collect()
}

#[test]
fn key_orders_rows_before_columns() {
    assert_eq!(key(0, 0), 0);
    assert_eq!(key(0, 7), 7);
    assert_eq!(key(1, 0), 1u128 << 64);
    assert_eq!(key(3, 5), (3u128 << 64) + 5);
    assert_ne!(key(1, 2), key(2, 1));
}

#[test]
fn trait_access_is_the_same_for_both_storages() {
    let d = filled(DenseMatrix::new(2, 2), 2, &[1, 2, 3, 4]);
    let s = filled(SparseMatrix::new(2, 2), 2, &[1, 2, 3, 4]);
    assert!(holds(&d, 2, 2, &units(&[1, 2, 3, 4])));
    assert!(holds(&s, 2, 2, &units(&[1, 2, 3, 4])));
    assert!(holds(&MatOps::t(&d), 2, 2, &units(&[1, 3, 2, 4])));
    assert!(holds(&MatOps::t(&s), 2, 2, &units(&[1, 3, 2, 4])));
    assert!(matches!(MatOps::get_v(&d, 2, 0), Err(MatrixError::IndexOutOfBounds)));
    assert!(matches!(MatOps::get_v(&s, 0, 2), Err(MatrixError::IndexOutOfBounds)));
}

#[test]
fn read_and_put() {
    let mut d = filled(DenseMatrix::new(2, 2), 2, &[1, 2, 3, 4]);
    assert!(read(&d, 1, 0).same(&Rational::from_int(3)));
    put(&mut d, 1, 0, Rational::new(1, 2));
    assert!(holds(&d, 2, 2, &[(1, 1), (2, 1), (1, 2), (4, 1)]));
}

#[test]
fn signed_one_alternates() {
    assert!(signed_one(0, 0).same(&Rational::one()));
    assert!(signed_one(0, 1).same(&Rational::from_int(-1)));
    assert!(signed_one(1, 0).same(&Rational::from_int(-1)));
    assert!(signed_one(3, 5).same(&Rational::one()));
    assert!(signed_one(usize::MAX, usize::MAX).same(&Rational::one()));
    assert!(signed_one(usize::MAX, 0).same(&Rational::from_int(-1)));
}

#[test]
fn trace_and_presence() {
    let d = filled(DenseMatrix::new(2, 3), 3, &[1, 2, 3, 4, 5, 6]);
    assert!(trace_of(&d).same(&Rational::from_int(6)));
    assert!(all_present(&d));
    let mut partial = DenseMatrix::new(2, 2);
    partial.set_v(0, 0, Rational::one());
    partial.set_v(0, 1, Rational::one());
    partial.set_v(1, 0, Rational::one());
    assert!(!all_present(&partial));
    assert!(all_present(&SparseMatrix::new(3, 3)));
    assert!(all_present(&DenseMatrix::new(0, 5)));
}

#[test]
fn render_rows_and_columns() {
    let s = filled(SparseMatrix::new(2, 3), 3, &[1, 0, -2, 0, 5, 0]);
    assert_eq!(render(&s), "1 0 -2 \n0 5 0 \n");
    assert_eq!(render(&SparseMatrix::new(2, 0)), "\n\n");
    assert_eq!(render(&SparseMatrix::new(0, 2)), "");
}

#[test]
fn layout_joins_texts_into_rows() {
    let texts: Vec<String> = ["a", "bc", "", "d", "e", "f"].iter().map(|s| s.to_string()).collect();
    assert_eq!(layout(&texts, 2, 3), "a bc  \nd e f \n");
    assert_eq!(layout(&texts, 3, 2), "a bc \n d \ne f \n");
    assert_eq!(layout(&texts, 6, 1), "a \nbc \n \nd \ne \nf \n");
    assert_eq!(layout(&Vec::new(), 0, 4), "");
    assert_eq!(layout(&Vec::new(), 3, 0), "\n\n\n");
}

#[test]
fn fill_by_rule() {
    let a = filled(SparseMatrix::new(2, 2), 2, &[1, 2, 3, 4]);
    let b = filled(SparseMatrix::new(2, 2), 2, &[5, 6, 7, 8]);
    let k = Rational::from_int(3);
    let mut out = SparseMatrix::new(2, 2);
    fill(&mut out, &Rule::Product, &a, &b, &k);
    assert!(holds(&out, 2, 2, &units(&[19, 22, 43, 50])));
    fill(&mut out, &Rule::Scaled, &a, &b, &k);
    assert!(holds(&out, 2, 2, &units(&[3, 6, 9, 12])));
    fill(&mut out, &Rule::Constant, &a, &b, &k);
    assert!(holds(&out, 2, 2, &units(&[3, 3, 3, 3])));
    let mut small = SparseMatrix::new(1, 1);
    fill(&mut small, &Rule::Minor { row: 0, col: 1 }, &a, &b, &k);
    assert!(holds(&small, 1, 1, &units(&[3])));
    fill(&mut small, &Rule::Sliced { r0: 1, c0: 1 }, &a, &b, &k);
    assert!(holds(&small, 1, 1, &units(&[4])));
    let mut wide = SparseMatrix::new(2, 4);
    fill(&mut wide, &Rule::Joined, &a, &b, &k);
    assert!(holds(&wide, 2, 4, &units(&[1, 2, 5, 6, 3, 4, 7, 8])));
}

#[test]
fn permute_rows_exchanges_whole_rows() {
    let mut d = filled(DenseMatrix::new(3, 2), 2, &[1, 2, 3, 4, 5, 6]);
    permute_rows(&mut d, 0, 2);
    assert!(holds(&d, 3, 2, &units(&[5, 6, 3, 4, 1, 2])));
    permute_rows(&mut d, 1, 1);
    assert!(holds(&d, 3, 2, &units(&[5, 6, 3, 4, 1, 2])));
    let mut s = filled(SparseMatrix::new(2, 2), 2, &[0, 1, 2, 0]);
    permute_rows(&mut s, 0, 1);
    assert!(holds(&s, 2, 2, &units(&[2, 0, 0, 1])));
    assert_eq!(s.entry_count(), 2);
}

#[test]
fn pivoting_takes_the_largest_absolute_value() {
    let mut d = filled(DenseMatrix::new(3, 3), 3, &[1, 2, 3, -7, 5, 6, 4, 8, 9]);
    assert_eq!(pivoting(&mut d, 0), 1);
    assert!(holds(&d, 3, 3, &units(&[-7, 5, 6, 1, 2, 3, 4, 8, 9])));
    assert_eq!(pivoting(&mut d, 1), 2);
    assert!(holds(&d, 3, 3, &units(&[-7, 5, 6, 4, 8, 9, 1, 2, 3])));
    assert_eq!(pivoting(&mut d, 2), 2);
    assert!(holds(&d, 3, 3, &units(&[-7, 5, 6, 4, 8, 9, 1, 2, 3])));
}

#[test]
fn pivoting_keeps_the_first_of_equals() {
    let mut wide = filled(DenseMatrix::new(3, 3), 3, &[2, 0, 0, -2, 1, 0, 2, 0, 1]);
    assert_eq!(pivoting(&mut wide, 0), 0);
    assert!(holds(&wide, 3, 3, &units(&[2, 0, 0, -2, 1, 0, 2, 0, 1])));
    let mut later = filled(SparseMatrix::new(3, 3), 3, &[1, 0, 0, -3, 1, 0, 3, 0, 1]);
    assert_eq!(pivoting(&mut later, 0), 1);
    assert!(holds(&later, 3, 3, &units(&[-3, 1, 0, 1, 0, 0, 3, 0, 1])));
}

#[test]
fn row_division_and_subtraction() {
    let mut d = filled(DenseMatrix::new(2, 3), 3, &[2, 4, 6, 1, 1, 1]);
    divide_row(&mut d, 0, &Rational::from_int(2), 1);
    assert!(holds(&d, 2, 3, &units(&[2, 2, 3, 1, 1, 1])));
    subtract_row(&mut d, 1, 0, &Rational::new(1, 2), 0);
    assert!(holds(&d, 2, 3, &[(2, 1), (2, 1), (3, 1), (0, 1), (0, 1), (-1, 2)]));
    subtract_row(&mut d, 0, 1, &Rational::from_int(4), 2);
    assert!(holds(&d, 2, 3, &[(2, 1), (2, 1), (5, 1), (0, 1), (0, 1), (-1, 2)]));
}

#[test]
fn det_reduce_counts_exchanges() {
    let mut d = filled(DenseMatrix::new(2, 2), 2, &[0, 1, 1, 0]);
    assert!(det_reduce(&mut d).same(&Rational::from_int(-1)));
    let mut e = filled(DenseMatrix::new(3, 3), 3, &[2, 0, 0, 0, 3, 0, 0, 0, 5]);
    assert!(det_reduce(&mut e).same(&Rational::from_int(30)));
    let mut s = filled(SparseMatrix::new(3, 3), 3, &[1, 2, 3, 4, 5, 6, 7, 8, 9]);
    assert!(det_reduce(&mut s).is_zero());
}
