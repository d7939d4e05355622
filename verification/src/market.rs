//! Reductions of market data to the model's inputs: normalizing raw
//! capitalization figures into market weights, and turning price series
//! into a sample covariance matrix.
//!
//! Fetching the data is a caller's concern; these functions only compute.

use vstd::prelude::*;
use crate::rat::{
    QVal, Rat, q_wf, q_eq, q_lt, q_zero, q_one, q_add, q_sub, q_mul, q_div, q_inv, q_from_int,
    q_is_zero, q_canon, q_representable, rat_wf, lemma_q_eq_trans, lemma_q_wf_div, lemma_q_wf_mul,
    lemma_q_div_congr, lemma_q_sub_congr, lemma_q_mul_congr, lemma_q_lt_congr,
    lemma_q_is_zero_congr,
};
use crate::qseq::{
    q_seq_wf, q_seq_eq, q_sum, q_sum_chain, q_sum_chain_ok, lemma_q_sum_wf, lemma_q_sum_congr,
    lemma_q_sum_accumulate,
};
use crate::matrix::{Matrix, MatError, mat_cols, rats_view, rat_seq_wf, lemma_rats_view_wf};
use crate::litterman::{q_seq_div, lemma_normalized_weights_sum_to_one};

verus! {

/// The sequence of weights divided by their total.
pub open spec fn normalized_spec(v: Seq<QVal>) -> Seq<QVal> {
    q_seq_div(v, q_sum(v))
}

/// The canonical total and, when it is positive, every division by it are
/// representable: exactly when weight normalization succeeds.
pub open spec fn market_weights_succeed(values: Seq<Rat>) -> bool {
    let vals = rats_view(values);
    let total = q_sum_chain(vals, values.len() as int);
    &&& q_sum_chain_ok(vals, values.len() as int)
    &&& (q_lt(q_zero(), total) ==> forall|i: int|
        0 <= i < values.len() ==> q_representable(q_div(#[trigger] vals[i], total)))
}

/// Market weights from raw capitalization values: when the total is
/// positive, every value is divided by it (the result then sums to one);
/// otherwise the values are returned unchanged.
#[verifier::loop_isolation(false)]
pub fn get_market_weights(values: Vec<Rat>) -> (r: Result<Vec<Rat>, MatError>)
    requires
        rat_seq_wf(values@),
    ensures
        r is Ok <==> market_weights_succeed(values@),
        r matches Ok(v) ==> v@.len() == values@.len() && rat_seq_wf(v@) && (if q_lt(
            q_zero(),
            q_sum(rats_view(values@)),
        ) {
            q_seq_eq(rats_view(v@), normalized_spec(rats_view(values@))) && q_eq(
                q_sum(rats_view(v@)),
                q_one(),
            )
        } else {
            v@ == values@
        }),
        r is Err ==> r == Err::<Vec<Rat>, MatError>(MatError::Overflow),
{
    proof {
        lemma_rats_view_wf(values@);
    }
    let ghost vals = rats_view(values@);
    let ghost s_spec = q_sum(vals);
    let total = match crate::litterman::vec_sum(&values) {
        Some(s) => s,
        None => {
            return Err(MatError::Overflow);
        },
    };
    proof {
        lemma_q_sum_wf(vals);
        lemma_q_lt_congr(q_zero(), q_zero(), total@, s_spec);
        lemma_q_is_zero_congr(total@, s_spec);
    }
    let zero = Rat::zero();
    if !zero.lt(&total) {
        return Ok(values);
    }
    let n = values.len();
    let mut out: Vec<Rat> = Vec::new();
    let mut i: usize = 0;
    while i < n
        invariant
            i <= n,
            n == values@.len(),
            rat_seq_wf(values@),
            vals == rats_view(values@),
            q_seq_wf(vals),
            rat_wf(total),
            total.num != 0,
            total@ == q_sum_chain(vals, n as int),
            q_lt(q_zero(), total@),
            q_eq(total@, s_spec),
            q_wf(s_spec),
            !q_is_zero(s_spec),
            s_spec == q_sum(vals),
            out@.len() == i as int,
            forall|t: int|
                0 <= t < i as int ==> rat_wf(#[trigger] out@[t]) && q_eq(
                    out@[t]@,
                    q_div(vals[t], s_spec),
                ),
            forall|t: int|
                0 <= t < i as int ==> q_representable(q_div(#[trigger] vals[t], total@)),
        decreases n - i,
    {
        let x = values[i];
        let y = match x.div(&total) {
            Some(v) => v,
            None => {
                proof {
                    assert(!q_representable(q_div(vals[i as int], total@)));
                }
                return Err(MatError::Overflow);
            },
        };
        proof {
            assert(vals[i as int] == x@);
            lemma_q_wf_div(x@, total@);
            lemma_q_wf_div(vals[i as int], s_spec);
            lemma_q_div_congr(x@, vals[i as int], total@, s_spec);
            lemma_q_eq_trans(y@, q_div(x@, total@), q_div(vals[i as int], s_spec));
        }
        out.push(y);
        i += 1;
    }
    proof {
        lemma_rats_view_wf(out@);
        assert(q_seq_eq(rats_view(out@), normalized_spec(vals)));
        lemma_normalized_weights_sum_to_one(vals);
        assert forall|t: int| 0 <= t < normalized_spec(vals).len() implies q_wf(
            #[trigger] normalized_spec(vals)[t],
        ) by {
            lemma_q_wf_div(vals[t], s_spec);
        }
        lemma_q_sum_congr(rats_view(out@), normalized_spec(vals));
        lemma_q_sum_wf(rats_view(out@));
        lemma_q_sum_wf(normalized_spec(vals));
        lemma_q_eq_trans(q_sum(rats_view(out@)), q_sum(normalized_spec(vals)), q_one());
    }
    Ok(out)
}

/// The arithmetic mean of a non-empty series.
pub open spec fn mean_spec(s: Seq<QVal>) -> QVal {
    q_div(q_sum(s), q_from_int(s.len() as int))
}

/// The sample covariance of two series over their first `cnt` common
/// points, with the usual `cnt - 1` denominator.
pub open spec fn cov_products(a: Seq<QVal>, b: Seq<QVal>, cnt: int) -> Seq<QVal> {
    Seq::new(cnt as nat, |k: int| q_mul(q_sub(a[k], mean_spec(a)), q_sub(b[k], mean_spec(b))))
}

pub open spec fn cov_entry_spec(a: Seq<QVal>, b: Seq<QVal>) -> QVal {
    let cnt = if a.len() <= b.len() {
        a.len() as int
    } else {
        b.len() as int
    };
    q_div(q_sum(cov_products(a, b, cnt)), q_from_int(cnt - 1))
}

/// The sample covariance is symmetric in its two series, so the computed
/// matrix is symmetric entry by entry.
pub proof fn lemma_cov_entry_symmetric(a: Seq<QVal>, b: Seq<QVal>)
    ensures
        cov_entry_spec(a, b) == cov_entry_spec(b, a),
{
    let cnt = if a.len() <= b.len() {
        a.len() as int
    } else {
        b.len() as int
    };
    assert forall|k: int| 0 <= k < cnt implies #[trigger] cov_products(a, b, cnt)[k]
        == cov_products(b, a, cnt)[k] by {
        crate::rat::lemma_q_mul_comm(
            q_sub(a[k], mean_spec(a)),
            q_sub(b[k], mean_spec(b)),
        );
    }
    assert(cov_products(a, b, cnt) =~= cov_products(b, a, cnt));
}

pub open spec fn series_views(prices: Seq<Vec<Rat>>) -> Seq<Seq<QVal>> {
    Seq::new(prices.len(), |i: int| rats_view(prices[i]@))
}

pub open spec fn series_wf(prices: Seq<Vec<Rat>>) -> bool {
    forall|i: int| 0 <= i < prices.len() ==> rat_seq_wf((#[trigger] prices[i])@)
}

/// The canonical mean a summation loop and one division produce.
pub open spec fn mean_chain(v: Seq<QVal>) -> QVal {
    q_canon(q_div(q_sum_chain(v, v.len() as int), q_from_int(v.len() as int)))
}

/// Every step of the mean computation is representable.
pub open spec fn mean_chain_ok(v: Seq<QVal>) -> bool {
    &&& q_sum_chain_ok(v, v.len() as int)
    &&& q_representable(q_div(q_sum_chain(v, v.len() as int), q_from_int(v.len() as int)))
}

/// The canonical accumulator chain of one covariance entry: each step
/// centers both points on the chain means, multiplies, and adds.
pub open spec fn cov_chain(a: Seq<QVal>, b: Seq<QVal>, k: int) -> QVal
    decreases k,
{
    if k <= 0 {
        q_zero()
    } else {
        q_canon(
            q_add(
                cov_chain(a, b, k - 1),
                q_canon(
                    q_mul(
                        q_canon(q_sub(a[k - 1], mean_chain(a))),
                        q_canon(q_sub(b[k - 1], mean_chain(b))),
                    ),
                ),
            ),
        )
    }
}

/// Every step of the covariance chain is representable.
pub open spec fn cov_chain_ok(a: Seq<QVal>, b: Seq<QVal>, k: int) -> bool
    decreases k,
{
    if k <= 0 {
        true
    } else {
        &&& cov_chain_ok(a, b, k - 1)
        &&& q_representable(q_sub(a[k - 1], mean_chain(a)))
        &&& q_representable(q_sub(b[k - 1], mean_chain(b)))
        &&& q_representable(
            q_mul(
                q_canon(q_sub(a[k - 1], mean_chain(a))),
                q_canon(q_sub(b[k - 1], mean_chain(b))),
            ),
        )
        &&& q_representable(
            q_add(
                cov_chain(a, b, k - 1),
                q_canon(
                    q_mul(
                        q_canon(q_sub(a[k - 1], mean_chain(a))),
                        q_canon(q_sub(b[k - 1], mean_chain(b))),
                    ),
                ),
            ),
        )
    }
}

pub proof fn lemma_cov_chain_ok_prefix(a: Seq<QVal>, b: Seq<QVal>, k: int, m: int)
    requires
        0 <= k <= m,
        cov_chain_ok(a, b, m),
    ensures
        cov_chain_ok(a, b, k),
    decreases m,
{
    if k < m {
        lemma_cov_chain_ok_prefix(a, b, k, m - 1);
    }
}

/// One covariance entry is computable: its chain over the common prefix
/// and the final division by the degrees of freedom are representable.
pub open spec fn cov_entry_ok(a: Seq<QVal>, b: Seq<QVal>) -> bool {
    let cnt = if a.len() <= b.len() {
        a.len() as int
    } else {
        b.len() as int
    };
    &&& cov_chain_ok(a, b, cnt)
    &&& q_representable(q_div(cov_chain(a, b, cnt), q_from_int(cnt - 1)))
}

/// Every series length is representable and every mean and entry chain is
/// representable: exactly when the covariance computation succeeds (given
/// that no series is shorter than two points).
pub open spec fn covariance_succeeds(prices: Seq<Vec<Rat>>) -> bool {
    &&& forall|i: int| 0 <= i < prices.len() ==> (#[trigger] prices[i])@.len() <= i64::MAX
    &&& forall|i: int|
        0 <= i < prices.len() ==> mean_chain_ok(#[trigger] series_views(prices)[i])
    &&& forall|i: int, j: int|
        0 <= i < prices.len() && 0 <= j < prices.len() ==> #[trigger] cov_entry_ok(
            series_views(prices)[i],
            series_views(prices)[j],
        )
}

/// The sample covariance matrix of the price series: entry `(i, j)` is the
/// covariance of series `i` and `j` over their common prefix. Every series
/// must hold at least two points; otherwise the data is insufficient.
#[verifier::loop_isolation(false)]
pub fn get_covariance_matrix(prices: &Vec<Vec<Rat>>) -> (r: Result<Matrix, MatError>)
    requires
        series_wf(prices@),
    ensures
        r matches Ok(m) ==> {
            &&& m.wf()
            &&& m@.len() == prices@.len()
            &&& prices@.len() > 0 ==> mat_cols(m@) == prices@.len()
            &&& forall|i: int, j: int|
                0 <= i < prices@.len() && 0 <= j < prices@.len() ==> q_eq(
                    #[trigger] m@[i][j],
                    cov_entry_spec(series_views(prices@)[i], series_views(prices@)[j]),
                )
        },
        (exists|i: int| 0 <= i < prices@.len() && (#[trigger] prices@[i])@.len() < 2) <==> r
            == Err::<Matrix, MatError>(MatError::MissingData),
        r is Err ==> r == Err::<Matrix, MatError>(MatError::MissingData) || r == Err::<
            Matrix,
            MatError,
        >(MatError::Overflow),
        (forall|i: int| 0 <= i < prices@.len() ==> (#[trigger] prices@[i])@.len() >= 2) ==> (r
            is Ok <==> covariance_succeeds(prices@)),
{
    let n = prices.len();
    // Every series needs at least two points, and a representable length.
    let mut i: usize = 0;
    while i < n
        invariant
            i <= n,
            n == prices@.len(),
            forall|t: int| 0 <= t < i as int ==> (#[trigger] prices@[t])@.len() >= 2,
        decreases n - i,
    {
        if prices[i].len() < 2 {
            return Err(MatError::MissingData);
        }
        i += 1;
    }
    let mut i2: usize = 0;
    while i2 < n
        invariant
            i2 <= n,
            forall|t: int| 0 <= t < i2 as int ==> (#[trigger] prices@[t])@.len() <= i64::MAX,
        decreases n - i2,
    {
        if (prices[i2].len() as u64) > (i64::MAX as u64) {
            return Err(MatError::Overflow);
        }
        i2 += 1;
    }
    // The mean of each series.
    let ghost views = series_views(prices@);
    let mut means: Vec<Rat> = Vec::new();
    let mut a: usize = 0;
    while a < n
        invariant
            a <= n,
            n == prices@.len(),
            series_wf(prices@),
            views == series_views(prices@),
            forall|t: int| 0 <= t < n as int ==> (#[trigger] prices@[t])@.len() >= 2,
            means@.len() == a as int,
            forall|t: int|
                0 <= t < a as int ==> rat_wf(#[trigger] means@[t]) && q_eq(
                    means@[t]@,
                    mean_spec(views[t]),
                ),
            forall|t: int|
                0 <= t < a as int ==> (#[trigger] means@[t])@ == mean_chain(views[t]),
            forall|t: int| 0 <= t < a as int ==> mean_chain_ok(#[trigger] views[t]),
        decreases n - a,
    {
        let series = &prices[a];
        proof {
            assert(rats_view(series@) == views[a as int]);
        }
        let total = match crate::litterman::vec_sum(series) {
            Some(s) => s,
            None => {
                proof {
                    assert(!mean_chain_ok(series_views(prices@)[a as int]));
                }
                return Err(MatError::Overflow);
            },
        };
        let count = Rat::from_int(series.len() as i64);
        let m = match total.div(&count) {
            Some(v) => v,
            None => {
                proof {
                    assert(count@ == q_from_int(views[a as int].len() as int));
                    assert(!mean_chain_ok(series_views(prices@)[a as int]));
                }
                return Err(MatError::Overflow);
            },
        };
        proof {
            assert(count@ == q_from_int(views[a as int].len() as int));
            assert(m@ == mean_chain(views[a as int]));
            assert(mean_chain_ok(views[a as int]));
            assert(views[a as int] == rats_view(prices@[a as int]@));
            lemma_rats_view_wf(prices@[a as int]@);
            lemma_q_sum_wf(views[a as int]);
            lemma_q_wf_div(total@, count@);
            lemma_q_wf_div(q_sum(views[a as int]), count@);
            lemma_q_div_congr(total@, q_sum(views[a as int]), count@, count@);
            lemma_q_eq_trans(
                m@,
                q_div(total@, count@),
                q_div(q_sum(views[a as int]), count@),
            );
        }
        means.push(m);
        a += 1;
    }
    // The covariance entries.
    let mut data: Vec<Vec<Rat>> = Vec::new();
    let mut r: usize = 0;
    while r < n
        invariant
            r <= n,
            n == prices@.len(),
            series_wf(prices@),
            views == series_views(prices@),
            forall|t: int| 0 <= t < n as int ==> (#[trigger] prices@[t])@.len() >= 2,
            means@.len() == n as int,
            forall|t: int|
                0 <= t < n as int ==> rat_wf(#[trigger] means@[t]) && q_eq(
                    means@[t]@,
                    mean_spec(views[t]),
                ),
            forall|t: int|
                0 <= t < n as int ==> (#[trigger] means@[t])@ == mean_chain(views[t]),
            forall|t: int, u: int|
                0 <= t < r as int && 0 <= u < n as int ==> #[trigger] cov_entry_ok(
                    views[t],
                    views[u],
                ),
            data@.len() == r as int,
            forall|t: int| 0 <= t < r as int ==> (#[trigger] data@[t])@.len() == n as int,
            forall|t: int, u: int|
                0 <= t < r as int && 0 <= u < n as int ==> rat_wf(#[trigger] data@[t]@[u]) && q_eq(
                    data@[t]@[u]@,
                    cov_entry_spec(views[t], views[u]),
                ),
        decreases n - r,
    {
        let mut row: Vec<Rat> = Vec::new();
        let mut c: usize = 0;
        while c < n
            invariant
                r < n,
                c <= n,
                n == prices@.len(),
                series_wf(prices@),
                views == series_views(prices@),
                forall|t: int| 0 <= t < n as int ==> (#[trigger] prices@[t])@.len() >= 2,
                means@.len() == n as int,
                forall|t: int|
                    0 <= t < n as int ==> rat_wf(#[trigger] means@[t]) && q_eq(
                        means@[t]@,
                        mean_spec(views[t]),
                    ),
                row@.len() == c as int,
                forall|u: int|
                    0 <= u < c as int ==> rat_wf(#[trigger] row@[u]) && q_eq(
                        row@[u]@,
                        cov_entry_spec(views[r as int], views[u]),
                    ),
                forall|t: int, u: int|
                    0 <= t < r as int && 0 <= u < n as int ==> #[trigger] cov_entry_ok(
                        views[t],
                        views[u],
                    ),
                forall|u: int|
                    0 <= u < c as int ==> #[trigger] cov_entry_ok(views[r as int], views[u]),
                forall|t: int|
                    0 <= t < n as int ==> (#[trigger] means@[t])@ == mean_chain(views[t]),
            decreases n - c,
        {
            let ghost va = views[r as int];
            let ghost vb = views[c as int];
            let len_a = prices[r].len();
            let len_b = prices[c].len();
            let cnt = if len_a <= len_b {
                len_a
            } else {
                len_b
            };
            let ghost prods = cov_products(va, vb, cnt as int);
            proof {
                lemma_rats_view_wf(prices@[r as int]@);
                lemma_rats_view_wf(prices@[c as int]@);
                lemma_q_sum_wf(va);
                lemma_q_sum_wf(vb);
                lemma_q_wf_div(q_sum(va), q_from_int(va.len() as int));
                lemma_q_wf_div(q_sum(vb), q_from_int(vb.len() as int));
                assert forall|t: int| 0 <= t < prods.len() implies q_wf(#[trigger] prods[t]) by {
                    lemma_q_sub_congr(va[t], va[t], mean_spec(va), mean_spec(va));
                    lemma_q_sub_congr(vb[t], vb[t], mean_spec(vb), mean_spec(vb));
                    lemma_q_wf_mul(
                        q_sub(va[t], mean_spec(va)),
                        q_sub(vb[t], mean_spec(vb)),
                    );
                }
                assert(prods.take(0) =~= Seq::<QVal>::empty());
            }
            let mean_a = means[r];
            let mean_b = means[c];
            proof {
                assert(mean_a@ == mean_chain(va));
                assert(mean_b@ == mean_chain(vb));
            }
            let mut acc = Rat::zero();
            let mut k: usize = 0;
            while k < cnt
                invariant
                    r < n,
                    c < n,
                    k <= cnt,
                    n == prices@.len(),
                    series_wf(prices@),
                    views == series_views(prices@),
                    va == views[r as int],
                    vb == views[c as int],
                    cnt as int <= va.len(),
                    cnt as int <= vb.len(),
                    prods == cov_products(va, vb, cnt as int),
                    q_seq_wf(prods),
                    q_seq_wf(va),
                    q_seq_wf(vb),
                    rat_wf(mean_a),
                    rat_wf(mean_b),
                    q_eq(mean_a@, mean_spec(va)),
                    q_eq(mean_b@, mean_spec(vb)),
                    q_wf(mean_spec(va)),
                    q_wf(mean_spec(vb)),
                    prices@[r as int]@.len() == va.len(),
                    prices@[c as int]@.len() == vb.len(),
                    rat_wf(acc),
                    q_eq(acc@, q_sum(prods.take(k as int))),
                    mean_a@ == mean_chain(va),
                    mean_b@ == mean_chain(vb),
                    cnt as int == (if va.len() <= vb.len() {
                        va.len() as int
                    } else {
                        vb.len() as int
                    }),
                    acc@ == cov_chain(va, vb, k as int),
                    cov_chain_ok(va, vb, k as int),
                decreases cnt - k,
            {
                let pa = prices[r][k];
                let pb = prices[c][k];
                proof {
                    assert(pa@ == va[k as int]);
                    assert(pb@ == vb[k as int]);
                }
                let da = match pa.sub(&mean_a) {
                    Some(v) => v,
                    None => {
                        proof {
                            assert(!cov_chain_ok(va, vb, k as int + 1));
                            if cov_chain_ok(va, vb, cnt as int) {
                                lemma_cov_chain_ok_prefix(va, vb, k as int + 1, cnt as int);
                            }
                            assert(!cov_entry_ok(views[r as int], views[c as int]));
                        }
                        return Err(MatError::Overflow);
                    },
                };
                let db = match pb.sub(&mean_b) {
                    Some(v) => v,
                    None => {
                        proof {
                            assert(!cov_chain_ok(va, vb, k as int + 1));
                            if cov_chain_ok(va, vb, cnt as int) {
                                lemma_cov_chain_ok_prefix(va, vb, k as int + 1, cnt as int);
                            }
                            assert(!cov_entry_ok(views[r as int], views[c as int]));
                        }
                        return Err(MatError::Overflow);
                    },
                };
                proof {
                    assert(da@ == q_canon(q_sub(va[k as int], mean_chain(va))));
                    assert(db@ == q_canon(q_sub(vb[k as int], mean_chain(vb))));
                }
                let prod = match da.mul(&db) {
                    Some(v) => v,
                    None => {
                        proof {
                            assert(!cov_chain_ok(va, vb, k as int + 1));
                            if cov_chain_ok(va, vb, cnt as int) {
                                lemma_cov_chain_ok_prefix(va, vb, k as int + 1, cnt as int);
                            }
                            assert(!cov_entry_ok(views[r as int], views[c as int]));
                        }
                        return Err(MatError::Overflow);
                    },
                };
                let next = match acc.add(&prod) {
                    Some(v) => v,
                    None => {
                        proof {
                            assert(!cov_chain_ok(va, vb, k as int + 1));
                            if cov_chain_ok(va, vb, cnt as int) {
                                lemma_cov_chain_ok_prefix(va, vb, k as int + 1, cnt as int);
                            }
                            assert(!cov_entry_ok(views[r as int], views[c as int]));
                        }
                        return Err(MatError::Overflow);
                    },
                };
                proof {
                    assert(next@ == cov_chain(va, vb, k as int + 1));
                    assert(cov_chain_ok(va, vb, k as int + 1));
                    lemma_q_sub_congr(pa@, va[k as int], mean_a@, mean_spec(va));
                    lemma_q_sub_congr(pb@, vb[k as int], mean_b@, mean_spec(vb));
                    lemma_q_eq_trans(da@, q_sub(pa@, mean_a@), q_sub(va[k as int], mean_spec(va)));
                    lemma_q_eq_trans(db@, q_sub(pb@, mean_b@), q_sub(vb[k as int], mean_spec(vb)));
                    lemma_q_mul_congr(
                        da@,
                        q_sub(va[k as int], mean_spec(va)),
                        db@,
                        q_sub(vb[k as int], mean_spec(vb)),
                    );
                    lemma_q_wf_mul(da@, db@);
                    lemma_q_wf_mul(
                        q_sub(va[k as int], mean_spec(va)),
                        q_sub(vb[k as int], mean_spec(vb)),
                    );
                    lemma_q_eq_trans(prod@, q_mul(da@, db@), prods[k as int]);
                    crate::rat::lemma_q_add_congr(acc@, acc@, prod@, prods[k as int]);
                    crate::rat::lemma_q_wf_add(acc@, prod@);
                    crate::rat::lemma_q_wf_add(acc@, prods[k as int]);
                    lemma_q_eq_trans(next@, q_add(acc@, prod@), q_add(acc@, prods[k as int]));
                    lemma_q_sum_accumulate(acc@, next@, prods[k as int], prods, k as int);
                }
                acc = next;
                k += 1;
            }
            let denom = Rat::from_int((cnt - 1) as i64);
            proof {
                assert(denom@ == q_from_int(cnt as int - 1));
            }
            let entry = match acc.div(&denom) {
                Some(v) => v,
                None => {
                    proof {
                        assert(!q_representable(q_div(
                            cov_chain(va, vb, cnt as int),
                            q_from_int(cnt as int - 1),
                        )));
                        assert(!cov_entry_ok(views[r as int], views[c as int]));
                    }
                    return Err(MatError::Overflow);
                },
            };
            proof {
                assert(cov_entry_ok(views[r as int], views[c as int]));
                assert(prods.take(cnt as int) =~= prods);
                lemma_q_sum_wf(prods);
                lemma_q_wf_div(acc@, denom@);
                lemma_q_wf_div(q_sum(prods), denom@);
                lemma_q_div_congr(acc@, q_sum(prods), denom@, denom@);
                lemma_q_eq_trans(
                    entry@,
                    q_div(acc@, denom@),
                    q_div(q_sum(prods), denom@),
                );
            }
            row.push(entry);
            c += 1;
        }
        data.push(row);
        r += 1;
    }
    let m = Matrix { data };
    proof {
        if n > 0 {
            assert(crate::matrix::mat_view_of(m.data@)[0].len() == m.data@[0]@.len());
        }
    }
    Ok(m)
}

} // verus!
