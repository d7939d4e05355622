use optimizeme::matrix::{MatError, Matrix};
use optimizeme::rat::Rat;

fn rq(num: i64, den: i64) -> Rat {
    Rat::new(num, den).unwrap()
}

fn mat(rows: Vec<Vec<(i64, i64)>>) -> Matrix {
    let data: Vec<Vec<Rat>> = rows
        .into_iter()
        .map(|r| r.into_iter().map(|(n, d)| rq(n, d)).collect())
        .collect();
    Matrix::from_rows(data).unwrap()
}

fn assert_entry(m: &Matrix, i: usize, j: usize, num: i64, den: i64) {
    assert!(m.get(i, j).eq_rat(&rq(num, den)));
}

#[test]
fn rat_reduction_and_equality() {
    assert!(rq(2, 4).eq_rat(&rq(1, 2)));
    assert!(rq(-3, -6).eq_rat(&rq(1, 2)));
    assert!(rq(3, -6).eq_rat(&rq(-1, 2)));
    assert!(!rq(1, 3).eq_rat(&rq(1, 2)));
    assert!(Rat::new(1, 0).is_none());
}

#[test]
fn rat_arithmetic_exact() {
    let a = rq(1, 3);
    let b = rq(1, 6);
    assert!(a.add(&b).unwrap().eq_rat(&rq(1, 2)));
    assert!(a.sub(&b).unwrap().eq_rat(&rq(1, 6)));
    assert!(a.mul(&b).unwrap().eq_rat(&rq(1, 18)));
    assert!(a.div(&b).unwrap().eq_rat(&rq(2, 1)));
    assert!(a.div(&Rat::zero()).is_none());
    assert!(rq(-7, 2).abs().eq_rat(&rq(7, 2)));
    assert!(rq(1, 3).lt(&rq(1, 2)));
    assert!(rq(1, 2).le(&rq(2, 4)));
}

#[test]
fn identity_has_ones_on_diagonal() {
    let id = Matrix::identity(3);
    for i in 0..3 {
        for j in 0..3 {
            if i == j {
                assert_entry(&id, i, j, 1, 1);
            } else {
                assert_entry(&id, i, j, 0, 1);
            }
        }
    }
}

#[test]
fn transpose_exact() {
    let m = mat(vec![
        vec![(1, 1), (2, 1), (3, 1)],
        vec![(4, 1), (5, 1), (6, 1)],
    ]);
    let t = m.transpose().unwrap();
    assert_eq!(t.rows(), 3);
    assert_eq!(t.cols(), 2);
    assert_entry(&t, 0, 0, 1, 1);
    assert_entry(&t, 0, 1, 4, 1);
    assert_entry(&t, 2, 1, 6, 1);
}

#[test]
fn transpose_twice_is_original() {
    let m = mat(vec![
        vec![(1, 2), (2, 3), (3, 4)],
        vec![(-4, 5), (5, 6), (6, 7)],
    ]);
    let tt = m.transpose().unwrap().transpose().unwrap();
    assert_eq!(tt.rows(), 2);
    assert_eq!(tt.cols(), 3);
    for i in 0..2 {
        for j in 0..3 {
            assert!(tt.get(i, j).eq_rat(&m.get(i, j)));
        }
    }
}

#[test]
fn transpose_empty_is_rejected() {
    let m = Matrix::from_rows(Vec::new()).unwrap();
    assert_eq!(m.transpose().unwrap_err(), MatError::EmptyInput);
}

#[test]
fn multiply_exact() {
    let a = mat(vec![vec![(1, 1), (2, 1)], vec![(3, 1), (4, 1)]]);
    let b = mat(vec![vec![(5, 1), (6, 1)], vec![(7, 1), (8, 1)]]);
    let c = a.multiply(&b).unwrap();
    assert_entry(&c, 0, 0, 19, 1);
    assert_entry(&c, 0, 1, 22, 1);
    assert_entry(&c, 1, 0, 43, 1);
    assert_entry(&c, 1, 1, 50, 1);
}

#[test]
fn multiply_dimension_mismatch() {
    let a = mat(vec![vec![(1, 1), (2, 1)]]);
    let b = mat(vec![vec![(1, 1)]]);
    assert_eq!(a.multiply(&b).unwrap_err(), MatError::DimMismatch);
}

#[test]
fn multiply_empty_is_rejected() {
    let a = Matrix::from_rows(Vec::new()).unwrap();
    let b = mat(vec![vec![(1, 1)]]);
    assert_eq!(a.multiply(&b).unwrap_err(), MatError::EmptyInput);
}

#[test]
fn invert_known_diagonal() {
    let m = mat(vec![vec![(2, 1), (0, 1)], vec![(0, 1), (4, 1)]]);
    let inv = m.invert().unwrap();
    assert_entry(&inv, 0, 0, 1, 2);
    assert_entry(&inv, 0, 1, 0, 1);
    assert_entry(&inv, 1, 0, 0, 1);
    assert_entry(&inv, 1, 1, 1, 4);
}

#[test]
fn invert_round_trip() {
    let m = mat(vec![vec![(1, 1), (2, 1)], vec![(3, 1), (5, 1)]]);
    let inv = m.invert().unwrap();
    // the product with the inverse is exactly the identity
    assert!(m.multiply(&inv).unwrap().is_identity());
    assert!(inv.multiply(&m).unwrap().is_identity());
    // inverting twice gives back the original, exactly
    let back = inv.invert().unwrap();
    for i in 0..2 {
        for j in 0..2 {
            assert!(back.get(i, j).eq_rat(&m.get(i, j)));
        }
    }
}

#[test]
fn invert_rejects_rank_deficient() {
    let m = mat(vec![vec![(1, 1), (2, 1)], vec![(2, 1), (4, 1)]]);
    assert_eq!(m.invert().unwrap_err(), MatError::NearSingular);
}

#[test]
fn invert_rejects_non_square() {
    let m = mat(vec![vec![(1, 1), (2, 1)]]);
    assert_eq!(m.invert().unwrap_err(), MatError::DimMismatch);
    let e = Matrix::from_rows(Vec::new()).unwrap();
    assert_eq!(e.invert().unwrap_err(), MatError::EmptyInput);
}

#[test]
fn invert_threshold_is_configurable() {
    // a pivot of 1/2 is fine for the default threshold but below 1
    let m = mat(vec![vec![(1, 2)]]);
    assert!(m.invert().is_ok());
    let strict = rq(1, 1);
    assert_eq!(m.invert_with(&strict).unwrap_err(), MatError::NearSingular);
}

#[test]
fn from_rows_rejects_ragged_rows() {
    let data = vec![vec![rq(1, 1), rq(2, 1)], vec![rq(3, 1)]];
    assert!(Matrix::from_rows(data).is_none());
}

#[test]
fn invert_needs_a_row_swap() {
    // the first pivot candidate is zero, so partial pivoting must swap rows
    let m = mat(vec![vec![(0, 1), (1, 1)], vec![(1, 1), (0, 1)]]);
    let inv = m.invert().unwrap();
    assert_entry(&inv, 0, 0, 0, 1);
    assert_entry(&inv, 0, 1, 1, 1);
    assert_entry(&inv, 1, 0, 1, 1);
    assert_entry(&inv, 1, 1, 0, 1);
}

#[test]
fn invert_three_by_three() {
    let m = mat(vec![
        vec![(2, 1), (1, 1), (1, 1)],
        vec![(1, 1), (3, 1), (2, 1)],
        vec![(1, 1), (0, 1), (0, 1)],
    ]);
    let inv = m.invert().unwrap();
    assert!(m.multiply(&inv).unwrap().is_identity());
    assert!(inv.multiply(&m).unwrap().is_identity());
    // one exact entry as a spot check: the inverse's first row is (0, 0, 1)
    assert_entry(&inv, 0, 0, 0, 1);
    assert_entry(&inv, 0, 1, 0, 1);
    assert_entry(&inv, 0, 2, 1, 1);
}

#[test]
fn arithmetic_reports_unrepresentable_results() {
    let big = rq(i64::MAX, 1);
    // the reduced result no longer fits the representation
    assert!(big.add(&rq(1, 1)).is_none());
    assert!(big.mul(&rq(2, 1)).is_none());
    // but reduction rescues a result that cancels back into range
    assert!(big.mul(&rq(1, i64::MAX)).unwrap().eq_rat(&rq(1, 1)));
}

#[test]
fn scale_reports_overflow() {
    let m = mat(vec![vec![(i64::MAX, 1)]]);
    assert_eq!(m.scale(&rq(2, 1)).unwrap_err(), MatError::Overflow);
}

#[test]
fn multiply_reports_overflow() {
    let a = mat(vec![vec![(i64::MAX, 1)]]);
    let b = mat(vec![vec![(2, 1)]]);
    assert_eq!(a.multiply(&b).unwrap_err(), MatError::Overflow);
}
