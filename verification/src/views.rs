//! The view builder: a ranked list of scalar returns becomes a views
//! matrix P, a views vector Q and a diagonal uncertainty matrix omega.
//!
//! The encoding is a relative-view chain, not a dense pairwise comparison:
//! row `i` of P carries `1` at column `i`, `0` at columns below `i` and at
//! column `i + 1`, and `-1` at every column from `i + 2` on; `Q` carries the
//! first return and then consecutive differences in sorted order. Downstream
//! consumers depend on this exact shape.

use vstd::prelude::*;
use crate::rat::{
    QVal, Rat, q_eq, q_le, q_lt, q_zero, q_one, q_neg, q_sub, q_representable, rat_wf,
    lemma_q_le_trans,
};
use crate::matrix::{Matrix, MatError, rat_seq_wf};

verus! {

/// The views matrix for `n` ranked assets.
pub open spec fn pviews_spec(n: int) -> Seq<Seq<QVal>> {
    Seq::new(
        n as nat,
        |i: int|
            Seq::new(
                n as nat,
                |j: int|
                    if j == i {
                        q_one()
                    } else if j < i || j == i + 1 {
                        q_zero()
                    } else {
                        q_neg(q_one())
                    },
            ),
    )
}

/// The diagonal uncertainty matrix for `n` views with diagonal `conf`.
pub open spec fn omega_spec(n: int, conf: QVal) -> Seq<Seq<QVal>> {
    Seq::new(
        n as nat,
        |i: int|
            Seq::new(
                n as nat,
                |j: int|
                    if i == j {
                        conf
                    } else {
                        q_zero()
                    },
            ),
    )
}

/// The views matrix P: one row per ranked asset, encoding that each asset
/// is expected to outperform the asset two ranks above it.
pub fn get_pviews(sentiment_returns: &Vec<Rat>) -> (m: Matrix)
    ensures
        m.wf(),
        m@ == pviews_spec(sentiment_returns@.len() as int),
{
    let n = sentiment_returns.len();
    let one = Rat::one();
    let zero = Rat::zero();
    let neg_one = Rat { num: -1, den: 1 };
    let mut data: Vec<Vec<Rat>> = Vec::new();
    let mut i: usize = 0;
    while i < n
        invariant
            i <= n,
            rat_wf(one),
            one@ == q_one(),
            rat_wf(zero),
            zero@ == q_zero(),
            rat_wf(neg_one),
            neg_one@ == q_neg(q_one()),
            data@.len() == i as int,
            forall|i2: int| 0 <= i2 < i as int ==> (#[trigger] data@[i2])@.len() == n as int,
            forall|i2: int, j: int|
                0 <= i2 < i as int && 0 <= j < n as int ==> rat_wf(#[trigger] data@[i2]@[j])
                    && data@[i2]@[j]@ == pviews_spec(n as int)[i2][j],
        decreases n - i,
    {
        let mut row: Vec<Rat> = Vec::new();
        let mut j: usize = 0;
        while j < n
            invariant
                i < n,
                j <= n,
                rat_wf(one),
                one@ == q_one(),
                rat_wf(zero),
                zero@ == q_zero(),
                rat_wf(neg_one),
                neg_one@ == q_neg(q_one()),
                row@.len() == j as int,
                forall|j2: int|
                    0 <= j2 < j as int ==> rat_wf(#[trigger] row@[j2]) && row@[j2]@ == pviews_spec(
                        n as int,
                    )[i as int][j2],
            decreases n - j,
        {
            if j == i {
                row.push(one);
            } else if j < i || j == i + 1 {
                row.push(zero);
            } else {
                row.push(neg_one);
            }
            j += 1;
        }
        data.push(row);
        i += 1;
    }
    let m = Matrix { data };
    proof {
        assert forall|i2: int| 0 <= i2 < n as int implies m@[i2] =~= pviews_spec(n as int)[i2] by {}
        assert(m@ =~~= pviews_spec(n as int));
    }
    m
}

/// The views vector Q: the lowest scalar return first, then each
/// consecutive difference in sorted order. Fails only when an exact
/// difference is unrepresentable.
pub fn get_qviews(sentiment_returns: &Vec<Rat>) -> (r: Result<Vec<Rat>, MatError>)
    requires
        rat_seq_wf(sentiment_returns@),
    ensures
        r matches Ok(v) ==> {
            &&& v@.len() == sentiment_returns@.len()
            &&& rat_seq_wf(v@)
            &&& (v@.len() > 0 ==> v@[0] == sentiment_returns@[0])
            &&& forall|i: int|
                1 <= i < v@.len() ==> q_eq(
                    (#[trigger] v@[i])@,
                    q_sub(sentiment_returns@[i]@, sentiment_returns@[i - 1]@),
                )
        },
        r is Err ==> r == Err::<Vec<Rat>, MatError>(MatError::Overflow),
        r is Ok <==> forall|i: int|
            1 <= i < sentiment_returns@.len() ==> q_representable(
                q_sub((#[trigger] sentiment_returns@[i])@, sentiment_returns@[i - 1]@),
            ),
{
    let n = sentiment_returns.len();
    let mut out: Vec<Rat> = Vec::new();
    if n == 0 {
        return Ok(out);
    }
    out.push(sentiment_returns[0]);
    let mut i: usize = 1;
    while i < n
        invariant
            1 <= i <= n,
            n == sentiment_returns@.len(),
            rat_seq_wf(sentiment_returns@),
            out@.len() == i as int,
            out@[0] == sentiment_returns@[0],
            forall|t: int|
                1 <= t < i as int ==> rat_wf(#[trigger] out@[t]) && q_eq(
                    out@[t]@,
                    q_sub(sentiment_returns@[t]@, sentiment_returns@[t - 1]@),
                ),
            forall|t: int|
                1 <= t < i as int ==> q_representable(
                    q_sub((#[trigger] sentiment_returns@[t])@, sentiment_returns@[t - 1]@),
                ),
        decreases n - i,
    {
        let cur = sentiment_returns[i];
        let prev = sentiment_returns[i - 1];
        match cur.sub(&prev) {
            Some(d) => out.push(d),
            None => {
                proof {
                    assert(!q_representable(q_sub(
                        sentiment_returns@[i as int]@,
                        sentiment_returns@[i as int - 1]@,
                    )));
                }
                return Err(MatError::Overflow);
            },
        }
        i += 1;
    }
    Ok(out)
}

/// The uncertainty matrix omega with a chosen uniform view confidence on
/// the diagonal.
pub fn uncertainty_matrix_with(n: usize, confidence: &Rat) -> (m: Matrix)
    requires
        rat_wf(*confidence),
    ensures
        m.wf(),
        m@ == omega_spec(n as int, confidence@),
{
    let zero = Rat::zero();
    let mut data: Vec<Vec<Rat>> = Vec::new();
    let mut i: usize = 0;
    while i < n
        invariant
            i <= n,
            rat_wf(*confidence),
            rat_wf(zero),
            zero@ == q_zero(),
            data@.len() == i as int,
            forall|i2: int| 0 <= i2 < i as int ==> (#[trigger] data@[i2])@.len() == n as int,
            forall|i2: int, j: int|
                0 <= i2 < i as int && 0 <= j < n as int ==> rat_wf(#[trigger] data@[i2]@[j])
                    && data@[i2]@[j]@ == omega_spec(n as int, confidence@)[i2][j],
        decreases n - i,
    {
        let mut row: Vec<Rat> = Vec::new();
        let mut j: usize = 0;
        while j < n
            invariant
                i < n,
                j <= n,
                rat_wf(*confidence),
                rat_wf(zero),
                zero@ == q_zero(),
                row@.len() == j as int,
                forall|j2: int|
                    0 <= j2 < j as int ==> rat_wf(#[trigger] row@[j2]) && row@[j2]@ == omega_spec(
                        n as int,
                        confidence@,
                    )[i as int][j2],
            decreases n - j,
        {
            if i == j {
                row.push(*confidence);
            } else {
                row.push(zero);
            }
            j += 1;
        }
        data.push(row);
        i += 1;
    }
    let m = Matrix { data };
    proof {
        assert forall|i2: int| 0 <= i2 < n as int implies m@[i2] =~= omega_spec(
            n as int,
            confidence@,
        )[i2] by {}
        assert(m@ =~~= omega_spec(n as int, confidence@));
    }
    m
}

/// The uncertainty matrix with the default uniform confidence of one
/// hundredth per view.
pub fn get_uncertainty_matrix(n: usize) -> (m: Matrix)
    ensures
        m.wf(),
        m@ == omega_spec(n as int, (QVal { n: 1, d: 100 })),
{
    let conf = Rat { num: 1, den: 100 };
    uncertainty_matrix_with(n, &conf)
}

/// The ascending stable ranking of the scalar return keys: a permutation
/// of the positions, with keys non-decreasing along it and ties kept in
/// original order.
#[verifier::loop_isolation(false)]
pub fn rank_order(keys: &Vec<Rat>) -> (r: Vec<usize>)
    requires
        rat_seq_wf(keys@),
    ensures
        r@.len() == keys@.len(),
        forall|a: int| 0 <= a < r@.len() ==> (#[trigger] r@[a]) < keys@.len(),
        forall|a: int, b: int| 0 <= a < b < r@.len() ==> r@[a] != r@[b],
        forall|a: int, b: int|
            0 <= a < b < r@.len() ==> q_le(
                keys@[#[trigger] r@[a] as int]@,
                keys@[#[trigger] r@[b] as int]@,
            ),
        forall|a: int, b: int|
            0 <= a < b < r@.len() && q_eq(
                keys@[#[trigger] r@[a] as int]@,
                keys@[#[trigger] r@[b] as int]@,
            ) ==> r@[a] < r@[b],
{
    let n = keys.len();
    let mut idx: Vec<usize> = Vec::new();
    let mut i: usize = 0;
    while i < n
        invariant
            i <= n,
            n == keys@.len(),
            rat_seq_wf(keys@),
            idx@.len() == i as int,
            forall|a: int| 0 <= a < idx@.len() ==> (#[trigger] idx@[a]) < i,
            forall|a: int, b: int| 0 <= a < b < idx@.len() ==> idx@[a] != idx@[b],
            forall|a: int, b: int|
                0 <= a < b < idx@.len() ==> q_le(
                    keys@[#[trigger] idx@[a] as int]@,
                    keys@[#[trigger] idx@[b] as int]@,
                ),
            forall|a: int, b: int|
                0 <= a < b < idx@.len() && q_eq(
                    keys@[#[trigger] idx@[a] as int]@,
                    keys@[#[trigger] idx@[b] as int]@,
                ) ==> idx@[a] < idx@[b],
        decreases n - i,
    {
        let key = keys[i];
        let mut pos: usize = idx.len();
        while pos > 0 && key.lt(&keys[idx[pos - 1]])
            invariant
                pos <= idx@.len(),
                i < n,
                n == keys@.len(),
                rat_seq_wf(keys@),
                key == keys@[i as int],
                forall|a: int| 0 <= a < idx@.len() ==> (#[trigger] idx@[a]) < i,
                forall|a: int, b: int|
                    0 <= a < b < idx@.len() ==> q_le(
                        keys@[#[trigger] idx@[a] as int]@,
                        keys@[#[trigger] idx@[b] as int]@,
                    ),
                forall|t: int|
                    pos <= t < idx@.len() ==> q_lt(key@, keys@[#[trigger] idx@[t] as int]@),
            decreases pos,
        {
            pos -= 1;
        }
        let ghost old_idx = idx@;
        idx.insert(pos, i);
        proof {
            let p = pos as int;
            let newi = idx@;
            assert(newi == old_idx.insert(p, i));
            assert forall|t: int| 0 <= t < newi.len() implies #[trigger] newi[t] == (if t < p {
                old_idx[t]
            } else if t == p {
                i
            } else {
                old_idx[t - 1]
            }) by {}
            // Everything left of the insertion point has a key at most the
            // new key: it is bounded by the entry just left of the point.
            assert forall|t: int| 0 <= t < p implies q_le(
                keys@[(#[trigger] old_idx[t]) as int]@,
                key@,
            ) by {
                assert(!q_lt(key@, keys@[old_idx[p - 1] as int]@));
                if t < p - 1 {
                    assert(q_le(keys@[old_idx[t] as int]@, keys@[old_idx[p - 1] as int]@));
                    lemma_q_le_trans(
                        keys@[old_idx[t] as int]@,
                        keys@[old_idx[p - 1] as int]@,
                        key@,
                    );
                }
            }
            // Keys stay sorted along the extended ranking.
            assert forall|a: int, b: int| 0 <= a < b < newi.len() implies q_le(
                keys@[(#[trigger] newi[a]) as int]@,
                keys@[(#[trigger] newi[b]) as int]@,
            ) by {
                if a < p && b > p {
                    assert(q_le(keys@[old_idx[a] as int]@, key@));
                    assert(q_lt(key@, keys@[old_idx[b - 1] as int]@));
                    lemma_q_le_trans(
                        keys@[old_idx[a] as int]@,
                        key@,
                        keys@[old_idx[b - 1] as int]@,
                    );
                }
            }
            // Ties keep their original order.
            assert forall|a: int, b: int|
                0 <= a < b < newi.len() && q_eq(
                    keys@[(#[trigger] newi[a]) as int]@,
                    keys@[(#[trigger] newi[b]) as int]@,
                ) implies newi[a] < newi[b] by {
                if a < p && b > p {
                    assert(q_le(keys@[old_idx[a] as int]@, key@));
                    assert(q_lt(key@, keys@[old_idx[b - 1] as int]@));
                }
            }
            // The extended ranking still names each position at most once.
            assert forall|a: int, b: int| 0 <= a < b < newi.len() implies newi[a] != newi[b]
                by {}
        }
        i += 1;
    }
    idx
}

} // verus!
