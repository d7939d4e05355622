use optimizeme::matrix::MatError;
use optimizeme::rat::Rat;
use optimizeme::signal::{
    aggregate_sentiment, analyze_fiancials, debt_equity_from_reports, encode_debt_equity,
    encode_growth, growth_rate_from_reports, sentiment_returns, to_scalar, AnnualReport,
    DatedReport, Signal,
};

fn sq(num: i64, den: i64) -> Rat {
    Rat::new(num, den).unwrap()
}

fn assert_signal(s: &Signal, bad: (i64, i64), neutral: (i64, i64), good: (i64, i64)) {
    assert!(s.bad.eq_rat(&sq(bad.0, bad.1)));
    assert!(s.neutral.eq_rat(&sq(neutral.0, neutral.1)));
    assert!(s.good.eq_rat(&sq(good.0, good.1)));
}

#[test]
fn growth_boundaries() {
    assert_signal(&encode_growth(Some(sq(-1, 100))), (1, 5), (4, 5), (0, 1));
    assert_signal(&encode_growth(Some(sq(1, 20))), (0, 1), (4, 5), (1, 5));
    assert_signal(&encode_growth(Some(sq(3, 10))), (0, 1), (1, 1), (0, 1));
    assert_signal(&encode_growth(None), (0, 1), (0, 1), (0, 1));
}

#[test]
fn growth_band_edges() {
    // zero and one tenth are inside the low band; one half rejoins it
    assert_signal(&encode_growth(Some(sq(0, 1))), (0, 1), (4, 5), (1, 5));
    assert_signal(&encode_growth(Some(sq(1, 10))), (0, 1), (4, 5), (1, 5));
    assert_signal(&encode_growth(Some(sq(1, 2))), (0, 1), (4, 5), (1, 5));
    assert_signal(&encode_growth(Some(sq(11, 100))), (0, 1), (1, 1), (0, 1));
    assert_signal(&encode_growth(Some(sq(49, 100))), (0, 1), (1, 1), (0, 1));
}

#[test]
fn debt_equity_bands() {
    assert_signal(&encode_debt_equity(Some(sq(1, 2))), (0, 1), (1, 1), (0, 1));
    assert_signal(&encode_debt_equity(Some(sq(6, 5))), (0, 1), (4, 5), (1, 5));
    assert_signal(&encode_debt_equity(Some(sq(2, 1))), (1, 5), (4, 5), (0, 1));
    assert_signal(&encode_debt_equity(Some(sq(1, 1))), (0, 1), (4, 5), (1, 5));
    assert_signal(&encode_debt_equity(Some(sq(3, 2))), (0, 1), (4, 5), (1, 5));
    assert_signal(&encode_debt_equity(None), (0, 1), (0, 1), (0, 1));
}

#[test]
fn analyze_fiancials_pairs_both_encodings() {
    let out = analyze_fiancials(vec![
        (Some(sq(-1, 10)), Some(sq(1, 2))),
        (None, None),
    ]);
    assert_eq!(out.len(), 2);
    assert_signal(&out[0].0, (1, 5), (4, 5), (0, 1));
    assert_signal(&out[0].1, (0, 1), (1, 1), (0, 1));
    assert_signal(&out[1].0, (0, 1), (0, 1), (0, 1));
    assert_signal(&out[1].1, (0, 1), (0, 1), (0, 1));
}

#[test]
fn aggregate_is_componentwise_mean() {
    let a = Signal { bad: sq(1, 5), neutral: sq(4, 5), good: Rat::zero() };
    let b = Signal { bad: Rat::zero(), neutral: sq(4, 5), good: sq(1, 5) };
    let m = aggregate_sentiment(vec![a, b]).unwrap();
    assert_signal(&m, (1, 10), (4, 5), (1, 10));
}

#[test]
fn aggregate_rejects_empty_input() {
    assert_eq!(aggregate_sentiment(Vec::new()).unwrap_err(), MatError::EmptyInput);
}

#[test]
fn scalar_return_formula() {
    let s = Signal { bad: sq(1, 5), neutral: sq(3, 10), good: sq(1, 2) };
    // (1/2 - 1/5) / (1/2 + 1/5 + 3/10) == 3/10
    assert!(to_scalar(&s).unwrap().eq_rat(&sq(3, 10)));
}

#[test]
fn scalar_return_zero_denominator() {
    let s = Signal { bad: Rat::zero(), neutral: Rat::zero(), good: Rat::zero() };
    assert!(to_scalar(&s).unwrap().eq_rat(&Rat::zero()));
}

#[test]
fn sentiment_returns_maps_each_signal() {
    let a = Signal { bad: Rat::zero(), neutral: Rat::zero(), good: sq(1, 2) };
    let b = Signal { bad: sq(1, 2), neutral: sq(1, 2), good: Rat::zero() };
    let out = sentiment_returns(vec![a, b]).unwrap();
    assert!(out[0].eq_rat(&sq(1, 1)));
    assert!(out[1].eq_rat(&sq(-1, 2)));
}

#[test]
fn growth_rate_needs_recent_annual_reports() {
    let ok = vec![
        AnnualReport { end_year: 2022, value: sq(100, 1) },
        AnnualReport { end_year: 2023, value: sq(110, 1) },
    ];
    assert!(growth_rate_from_reports(&ok).unwrap().eq_rat(&sq(1, 10)));

    let stale = vec![
        AnnualReport { end_year: 2020, value: sq(100, 1) },
        AnnualReport { end_year: 2021, value: sq(110, 1) },
    ];
    assert!(growth_rate_from_reports(&stale).is_none());

    let single = vec![AnnualReport { end_year: 2023, value: sq(100, 1) }];
    assert!(growth_rate_from_reports(&single).is_none());

    let nonpositive = vec![
        AnnualReport { end_year: 2022, value: Rat::zero() },
        AnnualReport { end_year: 2023, value: sq(110, 1) },
    ];
    assert!(growth_rate_from_reports(&nonpositive).is_none());
}

#[test]
fn debt_equity_needs_matching_period_ends() {
    let debt = vec![DatedReport { end_date: 20231231, value: sq(50, 1) }];
    let equity = vec![DatedReport { end_date: 20231231, value: sq(100, 1) }];
    assert!(debt_equity_from_reports(&debt, &equity).unwrap().eq_rat(&sq(1, 2)));

    let equity_other = vec![DatedReport { end_date: 20221231, value: sq(100, 1) }];
    assert!(debt_equity_from_reports(&debt, &equity_other).is_none());

    let equity_zero = vec![DatedReport { end_date: 20231231, value: Rat::zero() }];
    assert!(debt_equity_from_reports(&debt, &equity_zero).is_none());

    assert!(debt_equity_from_reports(&Vec::new(), &equity).is_none());
}
