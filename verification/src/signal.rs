//! The signal encoder: fundamental ratios and aggregated sentiment become
//! normalized three-bucket distributions, and a blended distribution becomes
//! a single scalar expected-return proxy.
//!
//! A missing value (too few annual reports, mismatched report periods) is an
//! `Option` that is `None`; encoders branch on presence, never on a sentinel.

use vstd::prelude::*;
use crate::rat::{
    QVal, Rat, q_eq, q_zero, q_one, q_add, q_sub, q_div, q_le, q_lt, q_is_zero, q_from_int,
    q_canon, q_representable, rat_wf, lemma_q_eq_trans, lemma_q_wf_add, lemma_q_is_zero_congr,
    lemma_q_div_congr, lemma_q_add_congr, lemma_q_neg_congr, lemma_q_wf_div,
};
use crate::qseq::{
    q_seq_wf, q_sum, q_sum_chain, q_sum_chain_ok, lemma_q_sum_accumulate,
    lemma_q_sum_chain_ok_prefix, lemma_q_sum_wf,
};
use crate::matrix::MatError;

verus! {

/// A probability-like three-bucket distribution `(bad, neutral, good)`.
/// Components are non-negative in intended use but nothing here depends on
/// it; a blend of several signals need not sum to one.
#[derive(Clone, Copy, Debug)]
pub struct Signal {
    pub bad: Rat,
    pub neutral: Rat,
    pub good: Rat,
}

impl Signal {
    pub open spec fn wf(self) -> bool {
        rat_wf(self.bad) && rat_wf(self.neutral) && rat_wf(self.good)
    }
}

pub open spec fn opt_view(r: Option<Rat>) -> Option<QVal> {
    match r {
        Option::None => Option::None,
        Option::Some(x) => Option::Some(x@),
    }
}

pub open spec fn opt_wf(r: Option<Rat>) -> bool {
    match r {
        Option::None => true,
        Option::Some(x) => rat_wf(x),
    }
}

pub open spec fn q_fifth() -> QVal {
    QVal { n: 1, d: 5 }
}

pub open spec fn q_four_fifths() -> QVal {
    QVal { n: 4, d: 5 }
}

pub open spec fn q_tenth() -> QVal {
    QVal { n: 1, d: 10 }
}

pub open spec fn q_half() -> QVal {
    QVal { n: 1, d: 2 }
}

/// The three-bucket encoding of a year-over-year revenue growth rate.
/// Negative growth is bad; growth in the low band or at one half and above
/// is grouped as good (a deliberate banding); any other present rate is
/// neutral; a missing rate encodes as all zero.
pub open spec fn growth_signal(rate: Option<QVal>) -> (QVal, QVal, QVal) {
    match rate {
        Option::None => (q_zero(), q_zero(), q_zero()),
        Option::Some(r) => {
            if q_lt(r, q_zero()) {
                (q_fifth(), q_four_fifths(), q_zero())
            } else if (q_le(q_zero(), r) && q_le(r, q_tenth())) || q_le(q_half(), r) {
                (q_zero(), q_four_fifths(), q_fifth())
            } else {
                (q_zero(), q_one(), q_zero())
            }
        },
    }
}

/// The three-bucket encoding of a debt/equity ratio: a ratio between one
/// and three halves is good, below one neutral, any other present value
/// bad; a missing ratio encodes as all zero.
pub open spec fn debt_equity_signal(ratio: Option<QVal>) -> (QVal, QVal, QVal) {
    match ratio {
        Option::None => (q_zero(), q_zero(), q_zero()),
        Option::Some(r) => {
            if q_le(q_one(), r) && q_le(r, q_add(q_one(), q_half())) {
                (q_zero(), q_four_fifths(), q_fifth())
            } else if q_lt(r, q_one()) {
                (q_zero(), q_one(), q_zero())
            } else {
                (q_fifth(), q_four_fifths(), q_zero())
            }
        },
    }
}

/// Encode a growth rate as a `(bad, neutral, good)` signal.
pub fn encode_growth(rate: Option<Rat>) -> (s: Signal)
    requires
        opt_wf(rate),
    ensures
        s.wf(),
        (s.bad@, s.neutral@, s.good@) == growth_signal(opt_view(rate)),
{
    let zero = Rat::zero();
    let fifth = Rat { num: 1, den: 5 };
    let four_fifths = Rat { num: 4, den: 5 };
    match rate {
        None => Signal { bad: zero, neutral: zero, good: zero },
        Some(r) => {
            let tenth = Rat { num: 1, den: 10 };
            let half = Rat { num: 1, den: 2 };
            if r.lt(&zero) {
                Signal { bad: fifth, neutral: four_fifths, good: zero }
            } else if r.le(&tenth) || half.le(&r) {
                Signal { bad: zero, neutral: four_fifths, good: fifth }
            } else {
                Signal { bad: zero, neutral: Rat::one(), good: zero }
            }
        },
    }
}

/// Encode a debt/equity ratio as a `(bad, neutral, good)` signal.
pub fn encode_debt_equity(ratio: Option<Rat>) -> (s: Signal)
    requires
        opt_wf(ratio),
    ensures
        s.wf(),
        (s.bad@, s.neutral@, s.good@) == debt_equity_signal(opt_view(ratio)),
{
    let zero = Rat::zero();
    let one = Rat::one();
    let fifth = Rat { num: 1, den: 5 };
    let four_fifths = Rat { num: 4, den: 5 };
    match ratio {
        None => Signal { bad: zero, neutral: zero, good: zero },
        Some(r) => {
            let three_halves = Rat { num: 3, den: 2 };
            proof {
                assert(three_halves@ == q_add(q_one(), q_half()));
            }
            if one.le(&r) && r.le(&three_halves) {
                Signal { bad: zero, neutral: four_fifths, good: fifth }
            } else if r.lt(&one) {
                Signal { bad: zero, neutral: one, good: zero }
            } else {
                Signal { bad: fifth, neutral: four_fifths, good: zero }
            }
        },
    }
}

/// Per asset, the growth and debt/equity signals from the two fundamental
/// ratios, in input order.
pub fn analyze_fiancials(datas: Vec<(Option<Rat>, Option<Rat>)>) -> (r: Vec<(Signal, Signal)>)
    requires
        forall|i: int|
            0 <= i < datas@.len() ==> opt_wf((#[trigger] datas@[i]).0) && opt_wf(datas@[i].1),
    ensures
        r@.len() == datas@.len(),
        forall|i: int|
            0 <= i < r@.len() ==> {
                &&& (#[trigger] r@[i]).0.wf()
                &&& r@[i].1.wf()
                &&& (r@[i].0.bad@, r@[i].0.neutral@, r@[i].0.good@) == growth_signal(
                    opt_view(datas@[i].0),
                )
                &&& (r@[i].1.bad@, r@[i].1.neutral@, r@[i].1.good@) == debt_equity_signal(
                    opt_view(datas@[i].1),
                )
            },
{
    let n = datas.len();
    let mut out: Vec<(Signal, Signal)> = Vec::new();
    let mut i: usize = 0;
    while i < n
        invariant
            i <= n,
            n == datas@.len(),
            forall|t: int|
                0 <= t < datas@.len() ==> opt_wf((#[trigger] datas@[t]).0) && opt_wf(datas@[t].1),
            out@.len() == i as int,
            forall|t: int|
                0 <= t < i as int ==> {
                    &&& (#[trigger] out@[t]).0.wf()
                    &&& out@[t].1.wf()
                    &&& (out@[t].0.bad@, out@[t].0.neutral@, out@[t].0.good@) == growth_signal(
                        opt_view(datas@[t].0),
                    )
                    &&& (out@[t].1.bad@, out@[t].1.neutral@, out@[t].1.good@) == debt_equity_signal(
                        opt_view(datas@[t].1),
                    )
                },
        decreases n - i,
    {
        let (growth, debt) = datas[i];
        let g = encode_growth(growth);
        let d = encode_debt_equity(debt);
        out.push((g, d));
        i += 1;
    }
    out
}

pub open spec fn signals_wf(s: Seq<Signal>) -> bool {
    forall|i: int| 0 <= i < s.len() ==> (#[trigger] s[i]).wf()
}

pub open spec fn signals_bad(s: Seq<Signal>) -> Seq<QVal> {
    Seq::new(s.len(), |i: int| s[i].bad@)
}

pub open spec fn signals_neutral(s: Seq<Signal>) -> Seq<QVal> {
    Seq::new(s.len(), |i: int| s[i].neutral@)
}

pub open spec fn signals_good(s: Seq<Signal>) -> Seq<QVal> {
    Seq::new(s.len(), |i: int| s[i].good@)
}

/// Every canonical partial sum of the three components and the three final
/// divisions by the count are representable: exactly when aggregation of a
/// non-empty list succeeds.
pub open spec fn aggregate_succeeds(s: Seq<Signal>) -> bool {
    let len = s.len() as int;
    &&& q_sum_chain_ok(signals_bad(s), len)
    &&& q_sum_chain_ok(signals_neutral(s), len)
    &&& q_sum_chain_ok(signals_good(s), len)
    &&& q_representable(q_div(q_sum_chain(signals_bad(s), len), q_from_int(len)))
    &&& q_representable(q_div(q_sum_chain(signals_neutral(s), len), q_from_int(len)))
    &&& q_representable(q_div(q_sum_chain(signals_good(s), len), q_from_int(len)))
}

/// The component-wise arithmetic mean of a non-empty list of signals.
/// An empty list is rejected; the mean of per-article sentiment vectors and
/// fundamental vectors is the asset's blended signal.
#[verifier::loop_isolation(false)]
pub fn aggregate_sentiment(sentiments: Vec<Signal>) -> (r: Result<Signal, MatError>)
    requires
        signals_wf(sentiments@),
    ensures
        sentiments@.len() == 0 ==> r == Err::<Signal, MatError>(MatError::EmptyInput),
        r matches Ok(m) ==> sentiments@.len() > 0 && m.wf() && q_eq(
            m.bad@,
            q_div(q_sum(signals_bad(sentiments@)), q_from_int(sentiments@.len() as int)),
        ) && q_eq(
            m.neutral@,
            q_div(q_sum(signals_neutral(sentiments@)), q_from_int(sentiments@.len() as int)),
        ) && q_eq(
            m.good@,
            q_div(q_sum(signals_good(sentiments@)), q_from_int(sentiments@.len() as int)),
        ),
        r is Err ==> r == Err::<Signal, MatError>(MatError::EmptyInput) || r == Err::<
            Signal,
            MatError,
        >(MatError::Overflow),
        (sentiments@.len() > 0 && sentiments@.len() <= i64::MAX) ==> (r is Ok
            <==> aggregate_succeeds(sentiments@)),
{
    let n = sentiments.len();
    if n == 0 {
        return Err(MatError::EmptyInput);
    }
    if (n as u64) > (i64::MAX as u64) {
        return Err(MatError::Overflow);
    }
    let ghost bads = signals_bad(sentiments@);
    let ghost neutrals = signals_neutral(sentiments@);
    let ghost goods = signals_good(sentiments@);
    proof {
        assert(q_seq_wf(bads));
        assert(q_seq_wf(neutrals));
        assert(q_seq_wf(goods));
        assert(bads.take(0) =~= Seq::<QVal>::empty());
        assert(neutrals.take(0) =~= Seq::<QVal>::empty());
        assert(goods.take(0) =~= Seq::<QVal>::empty());
    }
    let mut bad_acc = Rat::zero();
    let mut neutral_acc = Rat::zero();
    let mut good_acc = Rat::zero();
    let mut i: usize = 0;
    while i < n
        invariant
            i <= n,
            n == sentiments@.len(),
            signals_wf(sentiments@),
            bads == signals_bad(sentiments@),
            neutrals == signals_neutral(sentiments@),
            goods == signals_good(sentiments@),
            q_seq_wf(bads),
            q_seq_wf(neutrals),
            q_seq_wf(goods),
            rat_wf(bad_acc),
            rat_wf(neutral_acc),
            rat_wf(good_acc),
            q_eq(bad_acc@, q_sum(bads.take(i as int))),
            q_eq(neutral_acc@, q_sum(neutrals.take(i as int))),
            q_eq(good_acc@, q_sum(goods.take(i as int))),
            bad_acc@ == q_sum_chain(bads, i as int),
            neutral_acc@ == q_sum_chain(neutrals, i as int),
            good_acc@ == q_sum_chain(goods, i as int),
            q_sum_chain_ok(bads, i as int),
            q_sum_chain_ok(neutrals, i as int),
            q_sum_chain_ok(goods, i as int),
        decreases n - i,
    {
        let s = sentiments[i];
        proof {
            assert(s.bad@ == bads[i as int]);
            assert(s.neutral@ == neutrals[i as int]);
            assert(s.good@ == goods[i as int]);
        }
        let nb = match bad_acc.add(&s.bad) {
            Some(v) => v,
            None => {
                proof {
                    assert(!q_sum_chain_ok(bads, i as int + 1));
                    if q_sum_chain_ok(bads, n as int) {
                        lemma_q_sum_chain_ok_prefix(bads, i as int + 1, n as int);
                    }
                }
                return Err(MatError::Overflow);
            },
        };
        let nn = match neutral_acc.add(&s.neutral) {
            Some(v) => v,
            None => {
                proof {
                    assert(!q_sum_chain_ok(neutrals, i as int + 1));
                    if q_sum_chain_ok(neutrals, n as int) {
                        lemma_q_sum_chain_ok_prefix(neutrals, i as int + 1, n as int);
                    }
                }
                return Err(MatError::Overflow);
            },
        };
        let ng = match good_acc.add(&s.good) {
            Some(v) => v,
            None => {
                proof {
                    assert(!q_sum_chain_ok(goods, i as int + 1));
                    if q_sum_chain_ok(goods, n as int) {
                        lemma_q_sum_chain_ok_prefix(goods, i as int + 1, n as int);
                    }
                }
                return Err(MatError::Overflow);
            },
        };
        proof {
            lemma_q_sum_accumulate(bad_acc@, nb@, s.bad@, bads, i as int);
            lemma_q_sum_accumulate(neutral_acc@, nn@, s.neutral@, neutrals, i as int);
            lemma_q_sum_accumulate(good_acc@, ng@, s.good@, goods, i as int);
            assert(nb@ == q_sum_chain(bads, i as int + 1));
            assert(nn@ == q_sum_chain(neutrals, i as int + 1));
            assert(ng@ == q_sum_chain(goods, i as int + 1));
            assert(q_sum_chain_ok(bads, i as int + 1));
            assert(q_sum_chain_ok(neutrals, i as int + 1));
            assert(q_sum_chain_ok(goods, i as int + 1));
        }
        bad_acc = nb;
        neutral_acc = nn;
        good_acc = ng;
        i += 1;
    }
    proof {
        assert(bads.take(n as int) =~= bads);
        assert(neutrals.take(n as int) =~= neutrals);
        assert(goods.take(n as int) =~= goods);
    }
    let count = Rat::from_int(n as i64);
    let mb = match bad_acc.div(&count) {
        Some(v) => v,
        None => {
            return Err(MatError::Overflow);
        },
    };
    let mn = match neutral_acc.div(&count) {
        Some(v) => v,
        None => {
            return Err(MatError::Overflow);
        },
    };
    let mg = match good_acc.div(&count) {
        Some(v) => v,
        None => {
            return Err(MatError::Overflow);
        },
    };
    proof {
        lemma_q_sum_wf(bads);
        lemma_q_sum_wf(neutrals);
        lemma_q_sum_wf(goods);
        lemma_q_wf_div(bad_acc@, count@);
        lemma_q_wf_div(neutral_acc@, count@);
        lemma_q_wf_div(good_acc@, count@);
        lemma_q_wf_div(q_sum(bads), count@);
        lemma_q_wf_div(q_sum(neutrals), count@);
        lemma_q_wf_div(q_sum(goods), count@);
        lemma_q_div_congr(bad_acc@, q_sum(bads), count@, count@);
        lemma_q_div_congr(neutral_acc@, q_sum(neutrals), count@, count@);
        lemma_q_div_congr(good_acc@, q_sum(goods), count@, count@);
        lemma_q_eq_trans(
            mb@,
            q_div(bad_acc@, count@),
            q_div(q_sum(bads), count@),
        );
        lemma_q_eq_trans(
            mn@,
            q_div(neutral_acc@, count@),
            q_div(q_sum(neutrals), count@),
        );
        lemma_q_eq_trans(
            mg@,
            q_div(good_acc@, count@),
            q_div(q_sum(goods), count@),
        );
    }
    Ok(Signal { bad: mb, neutral: mn, good: mg })
}

/// The scalar expected-return proxy of a blended signal:
/// `(good - bad) / (good + bad + neutral)`, and zero when the denominator
/// is zero.
pub open spec fn scalar_return(bad: QVal, neutral: QVal, good: QVal) -> QVal {
    let denom = q_add(q_add(good, bad), neutral);
    if q_is_zero(denom) {
        q_zero()
    } else {
        q_div(q_sub(good, bad), denom)
    }
}

/// Every intermediate canonical value of the scalar-return computation is
/// representable: exactly when the reduction succeeds.
pub open spec fn to_scalar_succeeds(s: Signal) -> bool {
    let s1 = q_add(s.good@, s.bad@);
    let s2 = q_add(q_canon(s1), s.neutral@);
    &&& q_representable(s1)
    &&& q_representable(s2)
    &&& (q_is_zero(q_canon(s2)) || {
        let num = q_sub(s.good@, s.bad@);
        q_representable(num) && q_representable(q_div(q_canon(num), q_canon(s2)))
    })
}

/// Reduce a signal to its scalar expected-return proxy.
pub fn to_scalar(s: &Signal) -> (r: Result<Rat, MatError>)
    requires
        s.wf(),
    ensures
        r matches Ok(v) ==> rat_wf(v) && q_eq(v@, scalar_return(s.bad@, s.neutral@, s.good@)),
        r is Err ==> r == Err::<Rat, MatError>(MatError::Overflow),
        r is Ok <==> to_scalar_succeeds(*s),
{
    let ghost denom_spec = q_add(q_add(s.good@, s.bad@), s.neutral@);
    let gb = match s.good.add(&s.bad) {
        Some(v) => v,
        None => {
            return Err(MatError::Overflow);
        },
    };
    let denom = match gb.add(&s.neutral) {
        Some(v) => v,
        None => {
            return Err(MatError::Overflow);
        },
    };
    proof {
        lemma_q_wf_add(s.good@, s.bad@);
        lemma_q_wf_add(q_add(s.good@, s.bad@), s.neutral@);
        lemma_q_add_congr(gb@, q_add(s.good@, s.bad@), s.neutral@, s.neutral@);
        lemma_q_wf_add(gb@, s.neutral@);
        lemma_q_eq_trans(denom@, q_add(gb@, s.neutral@), denom_spec);
        lemma_q_is_zero_congr(denom@, denom_spec);
    }
    if denom.is_zero() {
        return Ok(Rat::zero());
    }
    let num = match s.good.sub(&s.bad) {
        Some(v) => v,
        None => {
            return Err(MatError::Overflow);
        },
    };
    let out = match num.div(&denom) {
        Some(v) => v,
        None => {
            return Err(MatError::Overflow);
        },
    };
    proof {
        lemma_q_neg_congr(s.bad@, s.bad@);
        lemma_q_wf_add(s.good@, crate::rat::q_neg(s.bad@));
        lemma_q_wf_div(num@, denom@);
        lemma_q_wf_div(q_sub(s.good@, s.bad@), denom_spec);
        lemma_q_div_congr(num@, q_sub(s.good@, s.bad@), denom@, denom_spec);
        lemma_q_eq_trans(
            out@,
            q_div(num@, denom@),
            q_div(q_sub(s.good@, s.bad@), denom_spec),
        );
    }
    Ok(out)
}

/// The scalar expected-return proxy of each signal, in input order.
pub fn sentiment_returns(sentiments: Vec<Signal>) -> (r: Result<Vec<Rat>, MatError>)
    requires
        signals_wf(sentiments@),
    ensures
        r matches Ok(v) ==> v@.len() == sentiments@.len() && forall|i: int|
            0 <= i < v@.len() ==> rat_wf(#[trigger] v@[i]) && q_eq(
                v@[i]@,
                scalar_return(sentiments@[i].bad@, sentiments@[i].neutral@, sentiments@[i].good@),
            ),
        r is Err ==> r == Err::<Vec<Rat>, MatError>(MatError::Overflow),
        r is Ok <==> forall|i: int|
            0 <= i < sentiments@.len() ==> to_scalar_succeeds(#[trigger] sentiments@[i]),
{
    let n = sentiments.len();
    let mut out: Vec<Rat> = Vec::new();
    let mut i: usize = 0;
    while i < n
        invariant
            i <= n,
            n == sentiments@.len(),
            signals_wf(sentiments@),
            out@.len() == i as int,
            forall|t: int|
                0 <= t < i as int ==> rat_wf(#[trigger] out@[t]) && q_eq(
                    out@[t]@,
                    scalar_return(
                        sentiments@[t].bad@,
                        sentiments@[t].neutral@,
                        sentiments@[t].good@,
                    ),
                ),
            forall|t: int| 0 <= t < i as int ==> to_scalar_succeeds(#[trigger] sentiments@[t]),
        decreases n - i,
    {
        let s = sentiments[i];
        match to_scalar(&s) {
            Ok(v) => out.push(v),
            Err(e) => {
                proof {
                    assert(!to_scalar_succeeds(sentiments@[i as int]));
                }
                return Err(e);
            },
        }
        i += 1;
    }
    Ok(out)
}

// ---------------------------------------------------------------------------
// Source-data trust rules for the fundamental ratios.
// ---------------------------------------------------------------------------

/// One annual (fiscal-year) report: the calendar year its period ends in,
/// and the reported value.
#[derive(Clone, Copy, Debug)]
pub struct AnnualReport {
    pub end_year: i64,
    pub value: Rat,
}

/// One dated report: its period-end date as a single integer key (any
/// encoding that makes equal dates equal integers, such as `yyyymmdd`),
/// and the reported value.
#[derive(Clone, Copy, Debug)]
pub struct DatedReport {
    pub end_date: i64,
    pub value: Rat,
}

pub open spec fn annual_reports_wf(s: Seq<AnnualReport>) -> bool {
    forall|i: int| 0 <= i < s.len() ==> rat_wf((#[trigger] s[i]).value)
}

pub open spec fn dated_reports_wf(s: Seq<DatedReport>) -> bool {
    forall|i: int| 0 <= i < s.len() ==> rat_wf((#[trigger] s[i]).value)
}

/// Growth data is trusted only when at least two annual reports exist, the
/// latest ends in a year at or after 2022, and both revenue values are
/// positive.
pub open spec fn growth_admissible(reports: Seq<AnnualReport>) -> bool {
    &&& reports.len() >= 2
    &&& reports.last().end_year >= 2022
    &&& q_lt(q_zero(), reports.last().value@)
    &&& q_lt(q_zero(), reports[reports.len() - 2].value@)
}

/// The year-over-year revenue growth rate from the last two annual reports.
pub open spec fn growth_rate_spec(reports: Seq<AnnualReport>) -> QVal {
    q_div(
        q_sub(reports.last().value@, reports[reports.len() - 2].value@),
        reports[reports.len() - 2].value@,
    )
}

/// The data is trusted and both exact steps of the growth-rate computation
/// are representable: exactly when a rate is returned.
pub open spec fn growth_succeeds(reports: Seq<AnnualReport>) -> bool {
    let last = reports.last().value@;
    let prev = reports[reports.len() - 2].value@;
    &&& growth_admissible(reports)
    &&& q_representable(q_sub(last, prev))
    &&& q_representable(q_div(q_canon(q_sub(last, prev)), prev))
}

/// The growth rate from annual reports in chronological order, or `None`
/// when the data is not trusted (or the exact value is unrepresentable).
pub fn growth_rate_from_reports(reports: &Vec<AnnualReport>) -> (r: Option<Rat>)
    requires
        annual_reports_wf(reports@),
    ensures
        !growth_admissible(reports@) ==> r is None,
        r matches Some(v) ==> growth_admissible(reports@) && rat_wf(v) && q_eq(
            v@,
            growth_rate_spec(reports@),
        ),
        r is Some <==> growth_succeeds(reports@),
{
    let n = reports.len();
    if n < 2 {
        return None;
    }
    let last = reports[n - 1];
    let prev = reports[n - 2];
    if last.end_year < 2022 {
        return None;
    }
    let zero = Rat::zero();
    if !zero.lt(&last.value) || !zero.lt(&prev.value) {
        return None;
    }
    let diff = match last.value.sub(&prev.value) {
        Some(v) => v,
        None => {
            return None;
        },
    };
    let rate = match diff.div(&prev.value) {
        Some(v) => v,
        None => {
            return None;
        },
    };
    proof {
        lemma_q_neg_congr(prev.value@, prev.value@);
        lemma_q_wf_add(last.value@, crate::rat::q_neg(prev.value@));
        lemma_q_wf_div(diff@, prev.value@);
        lemma_q_wf_div(q_sub(last.value@, prev.value@), prev.value@);
        lemma_q_div_congr(diff@, q_sub(last.value@, prev.value@), prev.value@, prev.value@);
        lemma_q_eq_trans(
            rate@,
            q_div(diff@, prev.value@),
            q_div(q_sub(last.value@, prev.value@), prev.value@),
        );
    }
    Some(rate)
}

/// Debt/equity data is trusted only when both report lists are non-empty,
/// the most recent debt and equity reports share the same period-end date,
/// and equity is positive.
pub open spec fn debt_equity_admissible(debt: Seq<DatedReport>, equity: Seq<DatedReport>) -> bool {
    &&& debt.len() > 0
    &&& equity.len() > 0
    &&& debt.last().end_date == equity.last().end_date
    &&& q_lt(q_zero(), equity.last().value@)
}

pub open spec fn debt_equity_spec(debt: Seq<DatedReport>, equity: Seq<DatedReport>) -> QVal {
    q_div(debt.last().value@, equity.last().value@)
}

/// The data is trusted and the exact ratio is representable: exactly when
/// a debt/equity ratio is returned.
pub open spec fn debt_equity_succeeds(debt: Seq<DatedReport>, equity: Seq<DatedReport>) -> bool {
    &&& debt_equity_admissible(debt, equity)
    &&& q_representable(q_div(debt.last().value@, equity.last().value@))
}

/// The debt/equity ratio from the most recent reports, or `None` when the
/// data is not trusted (or the exact value is unrepresentable).
pub fn debt_equity_from_reports(debt: &Vec<DatedReport>, equity: &Vec<DatedReport>) -> (r: Option<
    Rat,
>)
    requires
        dated_reports_wf(debt@),
        dated_reports_wf(equity@),
    ensures
        !debt_equity_admissible(debt@, equity@) ==> r is None,
        r matches Some(v) ==> debt_equity_admissible(debt@, equity@) && rat_wf(v) && q_eq(
            v@,
            debt_equity_spec(debt@, equity@),
        ),
        r is Some <==> debt_equity_succeeds(debt@, equity@),
{
    let nd = debt.len();
    let ne = equity.len();
    if nd == 0 || ne == 0 {
        return None;
    }
    let d = debt[nd - 1];
    let e = equity[ne - 1];
    if d.end_date != e.end_date {
        return None;
    }
    let zero = Rat::zero();
    if !zero.lt(&e.value) {
        return None;
    }
    d.value.div(&e.value)
}

} // verus!
