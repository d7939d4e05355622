use optimizeme::litterman::{black_litterman, mvo, vec_sum};
use optimizeme::market::{get_covariance_matrix, get_market_weights};
use optimizeme::matrix::{MatError, Matrix};
use optimizeme::rat::Rat;

fn pq(num: i64, den: i64) -> Rat {
    Rat::new(num, den).unwrap()
}

fn pmat(rows: Vec<Vec<(i64, i64)>>) -> Matrix {
    let data: Vec<Vec<Rat>> = rows
        .into_iter()
        .map(|r| r.into_iter().map(|(n, d)| pq(n, d)).collect())
        .collect();
    Matrix::from_rows(data).unwrap()
}

#[test]
fn black_litterman_then_mvo_end_to_end() {
    // sigma = [[0.04, 0.006], [0.006, 0.09]], w_m = [0.5, 0.5], tau = 0.025,
    // P = [[1, -1], [0, 1]], Q = [0.01, -0.005], omega = 0.0001 * I
    let sigma = pmat(vec![
        vec![(1, 25), (3, 500)],
        vec![(3, 500), (9, 100)],
    ]);
    let weights = vec![pq(1, 2), pq(1, 2)];
    let tau = pq(1, 40);
    let p = pmat(vec![vec![(1, 1), (-1, 1)], vec![(0, 1), (1, 1)]]);
    let q = vec![pq(1, 100), pq(-1, 200)];
    let omega = pmat(vec![
        vec![(1, 10000), (0, 1)],
        vec![(0, 1), (1, 10000)],
    ]);
    let posterior = black_litterman(&sigma, &weights, &tau, &p, &q, &omega).unwrap();
    assert_eq!(posterior.len(), 2);
    let final_weights = mvo(&sigma, posterior).unwrap();
    assert_eq!(final_weights.len(), 2);
    let total = vec_sum(&final_weights).unwrap();
    assert!(total.eq_rat(&Rat::one()));
}

#[test]
fn black_litterman_rejects_empty_inputs() {
    let sigma = Matrix::from_rows(Vec::new()).unwrap();
    let p = pmat(vec![vec![(1, 1)]]);
    let omega = pmat(vec![vec![(1, 100)]]);
    let r = black_litterman(&sigma, &vec![pq(1, 1)], &pq(1, 40), &p, &vec![pq(1, 1)], &omega);
    assert_eq!(r.unwrap_err(), MatError::EmptyInput);
}

#[test]
fn black_litterman_rejects_mismatched_dimensions() {
    let sigma = pmat(vec![vec![(1, 25), (0, 1)], vec![(0, 1), (1, 25)]]);
    let p = pmat(vec![vec![(1, 1), (-1, 1)]]);
    let omega = pmat(vec![vec![(1, 100)]]);
    // three market weights against a 2x2 covariance
    let r = black_litterman(
        &sigma,
        &vec![pq(1, 3), pq(1, 3), pq(1, 3)],
        &pq(1, 40),
        &p,
        &vec![pq(1, 100)],
        &omega,
    );
    assert_eq!(r.unwrap_err(), MatError::DimMismatch);
}

#[test]
fn mvo_normalizes_to_unit_sum() {
    let sigma = pmat(vec![vec![(1, 1), (0, 1)], vec![(0, 1), (1, 1)]]);
    let returns = vec![pq(1, 4), pq(1, 4)];
    let w = mvo(&sigma, returns).unwrap();
    assert!(w[0].eq_rat(&pq(1, 2)));
    assert!(w[1].eq_rat(&pq(1, 2)));
    let total = vec_sum(&w).unwrap();
    assert!(total.eq_rat(&Rat::one()));
}

#[test]
fn mvo_keeps_raw_weights_on_degenerate_sum() {
    // cov^-1 * returns = [1/4, -1/4]: the sum is zero, so no normalization
    let sigma = pmat(vec![vec![(1, 1), (0, 1)], vec![(0, 1), (1, 1)]]);
    let returns = vec![pq(1, 4), pq(-1, 4)];
    let w = mvo(&sigma, returns).unwrap();
    assert!(w[0].eq_rat(&pq(1, 4)));
    assert!(w[1].eq_rat(&pq(-1, 4)));
}

#[test]
fn mvo_rejects_bad_inputs() {
    let empty = Matrix::from_rows(Vec::new()).unwrap();
    assert_eq!(mvo(&empty, vec![pq(1, 1)]).unwrap_err(), MatError::EmptyInput);
    let sigma = pmat(vec![vec![(1, 1), (0, 1)], vec![(0, 1), (1, 1)]]);
    assert_eq!(mvo(&sigma, vec![pq(1, 1)]).unwrap_err(), MatError::DimMismatch);
    let singular = pmat(vec![vec![(1, 1), (2, 1)], vec![(2, 1), (4, 1)]]);
    assert_eq!(
        mvo(&singular, vec![pq(1, 1), pq(1, 1)]).unwrap_err(),
        MatError::NearSingular
    );
}

#[test]
fn get_market_weights_divides_by_the_total() {
    let w = get_market_weights(vec![pq(2, 1), pq(3, 1), pq(5, 1)]).unwrap();
    assert!(w[0].eq_rat(&pq(1, 5)));
    assert!(w[1].eq_rat(&pq(3, 10)));
    assert!(w[2].eq_rat(&pq(1, 2)));
    let total = vec_sum(&w).unwrap();
    assert!(total.eq_rat(&Rat::one()));
}

#[test]
fn get_market_weights_leaves_nonpositive_total_unchanged() {
    let w = get_market_weights(vec![Rat::zero(), Rat::zero()]).unwrap();
    assert!(w[0].eq_rat(&Rat::zero()));
    assert!(w[1].eq_rat(&Rat::zero()));
}

#[test]
fn covariance_matrix_exact() {
    let prices = vec![
        vec![pq(1, 1), pq(2, 1), pq(3, 1)],
        vec![pq(2, 1), pq(4, 1), pq(6, 1)],
    ];
    let cov = get_covariance_matrix(&prices).unwrap();
    assert!(cov.get(0, 0).eq_rat(&pq(1, 1)));
    assert!(cov.get(0, 1).eq_rat(&pq(2, 1)));
    assert!(cov.get(1, 0).eq_rat(&pq(2, 1)));
    assert!(cov.get(1, 1).eq_rat(&pq(4, 1)));
}

#[test]
fn covariance_uses_common_prefix_of_unequal_series() {
    let prices = vec![
        vec![pq(1, 1), pq(3, 1), pq(100, 1)],
        vec![pq(2, 1), pq(6, 1)],
    ];
    let cov = get_covariance_matrix(&prices).unwrap();
    // the off-diagonal entry covers only the two common points, with the
    // full-series means
    assert_eq!(cov.rows(), 2);
    assert_eq!(cov.cols(), 2);
    // mean of series 0 is 104/3 and of series 1 is 4, so the two common
    // points give ((1 - 104/3)(-2) + (3 - 104/3)(2)) / 1 == 4
    assert!(cov.get(0, 1).eq_rat(&pq(4, 1)));
}

#[test]
fn covariance_needs_two_points_per_series() {
    let prices = vec![vec![pq(1, 1)]];
    assert_eq!(get_covariance_matrix(&prices).unwrap_err(), MatError::MissingData);
}
