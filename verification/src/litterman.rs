//! The Black-Litterman engine and the mean-variance optimizer.
//!
//! `black_litterman` blends market-implied equilibrium returns with the
//! encoded views into a posterior expected-return vector; `mvo` turns a
//! covariance matrix and an expected-return vector into normalized
//! portfolio weights. Both recover every failure (dimension mismatch,
//! near-singular inversion, empty input, overflow of the exact
//! representation) as an error value; neither panics.

use vstd::prelude::*;
use crate::rat::{
    QVal, Rat, q_wf, q_eq, q_lt, q_abs, q_one, q_zero, q_add, q_div, q_inv, q_mul,
    q_representable, rat_wf,
    lemma_q_eq_trans, lemma_q_mul_inv, lemma_q_wf_div, lemma_q_div_congr, lemma_q_abs_congr,
    lemma_q_lt_congr, lemma_q_is_zero_congr, lemma_q_abs_above_positive, lemma_q_wf_mul,
};
use crate::qseq::{
    q_seq_wf, q_seq_eq, q_sum, q_seq_add, q_seq_scale, q_sum_chain, q_sum_chain_ok,
    lemma_q_sum_wf, lemma_q_sum_congr, lemma_q_sum_accumulate, lemma_q_sum_chain_ok_prefix,
    lemma_q_seq_add_wf, lemma_q_seq_add_congr, lemma_q_seq_eq_trans, lemma_q_sum_scale,
};
use crate::matrix::{
    Matrix, MatError, mat_cols, mat_wf, mat_eq, mat_mul_spec, mat_transpose_spec, mat_scale_spec,
    mat_add_spec, mat_vec_spec, mat_identity_spec, rats_view, rat_seq_wf, inverse_pair,
    lemma_rats_view_wf, lemma_mat_scale_spec_wf, lemma_mat_add_spec_wf, lemma_mat_vec_spec_wf,
    lemma_mat_transpose_spec_wf, lemma_mat_mul_spec_wf, lemma_mat_mul_congr, lemma_mat_add_congr,
    lemma_mat_vec_congr, lemma_mat_eq_trans, lemma_mat_eq_sym, lemma_inverse_pair_congr,
};

verus! {

/// Every element divided by `d`.
pub open spec fn q_seq_div(s: Seq<QVal>, d: QVal) -> Seq<QVal> {
    Seq::new(s.len(), |i: int| q_div(s[i], d))
}

/// Normalizing a sequence by its own nonzero sum yields weights that sum
/// to one.
pub proof fn lemma_normalized_weights_sum_to_one(v: Seq<QVal>)
    requires
        q_seq_wf(v),
        !crate::rat::q_is_zero(q_sum(v)),
    ensures
        q_eq(q_sum(q_seq_div(v, q_sum(v))), q_one()),
{
    let s = q_sum(v);
    lemma_q_sum_wf(v);
    assert(q_seq_div(v, s) =~= q_seq_scale(v, q_inv(s)));
    assert(q_wf(q_inv(s)));
    lemma_q_sum_scale(v, q_inv(s));
    lemma_q_mul_inv(s);
    lemma_q_wf_mul(s, q_inv(s));
    crate::qseq::lemma_q_seq_scale_wf(v, q_inv(s));
    lemma_q_sum_wf(q_seq_scale(v, q_inv(s)));
    lemma_q_eq_trans(q_sum(q_seq_scale(v, q_inv(s))), q_mul(s, q_inv(s)), q_one());
}

/// Division by a common nonzero factor cancels: `(a c) / (s c) == a / s`.
pub proof fn lemma_q_div_cancel(a: QVal, s: QVal, c: QVal)
    requires
        q_wf(a),
        q_wf(s),
        q_wf(c),
        s.n != 0,
        c.n != 0,
    ensures
        q_eq(q_div(q_mul(a, c), q_mul(s, c)), q_div(a, s)),
{
    let x = q_mul(a, c);
    let y = q_mul(s, c);
    let m1 = x.n * y.d;
    let m2 = a.d * s.n;
    let m3 = a.n * s.d;
    let m4 = x.d * y.n;
    assert(m1 * m2 == m3 * m4) by (nonlinear_arith)
        requires
            m1 == x.n * y.d,
            m2 == a.d * s.n,
            m3 == a.n * s.d,
            m4 == x.d * y.n,
            x.n == a.n * c.n,
            x.d == a.d * c.d,
            y.n == s.n * c.n,
            y.d == s.d * c.d,
    ;
    assert(x.n * (-y.d) == -m1) by (nonlinear_arith)
        requires
            m1 == x.n * y.d,
    ;
    assert(a.d * (-s.n) == -m2) by (nonlinear_arith)
        requires
            m2 == a.d * s.n,
    ;
    assert(a.n * (-s.d) == -m3) by (nonlinear_arith)
        requires
            m3 == a.n * s.d,
    ;
    assert(x.d * (-y.n) == -m4) by (nonlinear_arith)
        requires
            m4 == x.d * y.n,
    ;
    assert((-m1) * m2 == -(m1 * m2)) by (nonlinear_arith);
    assert(m3 * (-m4) == -(m3 * m4)) by (nonlinear_arith);
    assert((-m1) * (-m2) == m1 * m2) by (nonlinear_arith);
    assert((-m3) * (-m4) == m3 * m4) by (nonlinear_arith);
    assert(m1 * (-m2) == -(m1 * m2)) by (nonlinear_arith);
    assert((-m3) * m4 == -(m3 * m4)) by (nonlinear_arith);
    // The sign of each numerator decides which reciprocal branch applies;
    // in every combination the cross products are the core identity up to
    // one shared sign flip.
    assert(s.n > 0 && c.n > 0 ==> y.n > 0) by (nonlinear_arith)
        requires
            y.n == s.n * c.n,
    ;
    assert(s.n > 0 && c.n < 0 ==> y.n < 0) by (nonlinear_arith)
        requires
            y.n == s.n * c.n,
    ;
    assert(s.n < 0 && c.n > 0 ==> y.n < 0) by (nonlinear_arith)
        requires
            y.n == s.n * c.n,
    ;
    assert(s.n < 0 && c.n < 0 ==> y.n > 0) by (nonlinear_arith)
        requires
            y.n == s.n * c.n,
    ;
}

/// Normalization cancels any nonzero scale factor on the raw weights: the
/// normalized weights of `c * v` equal the normalized weights of `v`.
pub proof fn lemma_normalization_scale_invariant(v: Seq<QVal>, c: QVal)
    requires
        q_seq_wf(v),
        q_wf(c),
        c.n != 0,
        !crate::rat::q_is_zero(q_sum(v)),
    ensures
        q_seq_eq(
            q_seq_div(q_seq_scale(v, c), q_sum(q_seq_scale(v, c))),
            q_seq_div(v, q_sum(v)),
        ),
{
    let s = q_sum(v);
    let scaled = q_seq_scale(v, c);
    let s2 = q_sum(scaled);
    lemma_q_sum_wf(v);
    crate::qseq::lemma_q_seq_scale_wf(v, c);
    lemma_q_sum_wf(scaled);
    lemma_q_sum_scale(v, c);
    lemma_q_wf_mul(s, c);
    assert(q_mul(s, c).n != 0) by (nonlinear_arith)
        requires
            s.n != 0,
            c.n != 0,
            q_mul(s, c).n == s.n * c.n,
    ;
    lemma_q_is_zero_congr(s2, q_mul(s, c));
    assert forall|i: int| 0 <= i < scaled.len() implies q_eq(
        #[trigger] q_seq_div(scaled, s2)[i],
        q_seq_div(v, s)[i],
    ) by {
        lemma_q_wf_mul(v[i], c);
        lemma_q_div_congr(q_mul(v[i], c), q_mul(v[i], c), s2, q_mul(s, c));
        lemma_q_div_cancel(v[i], s, c);
        lemma_q_wf_div(q_mul(v[i], c), s2);
        lemma_q_wf_div(q_mul(v[i], c), q_mul(s, c));
        lemma_q_wf_div(v[i], s);
        lemma_q_eq_trans(
            q_div(q_mul(v[i], c), s2),
            q_div(q_mul(v[i], c), q_mul(s, c)),
            q_div(v[i], s),
        );
    }
}

/// The pointwise sum of two vectors of rationals.
pub fn vec_add(a: &Vec<Rat>, b: &Vec<Rat>) -> (r: Result<Vec<Rat>, MatError>)
    requires
        rat_seq_wf(a@),
        rat_seq_wf(b@),
    ensures
        r matches Ok(v) ==> a@.len() == b@.len() && rat_seq_wf(v@) && q_seq_eq(
            rats_view(v@),
            q_seq_add(rats_view(a@), rats_view(b@)),
        ),
        a@.len() != b@.len() <==> r == Err::<Vec<Rat>, MatError>(MatError::DimMismatch),
        r is Err ==> r == Err::<Vec<Rat>, MatError>(MatError::DimMismatch) || r == Err::<
            Vec<Rat>,
            MatError,
        >(MatError::Overflow),
        a@.len() == b@.len() ==> (r is Ok <==> forall|i: int|
            0 <= i < a@.len() ==> q_representable(q_add((#[trigger] a@[i])@, b@[i]@))),
{
    let n = a.len();
    if b.len() != n {
        return Err(MatError::DimMismatch);
    }
    let mut out: Vec<Rat> = Vec::new();
    let mut i: usize = 0;
    while i < n
        invariant
            i <= n,
            n == a@.len(),
            n == b@.len(),
            rat_seq_wf(a@),
            rat_seq_wf(b@),
            out@.len() == i as int,
            forall|t: int|
                0 <= t < i as int ==> rat_wf(#[trigger] out@[t]) && q_eq(
                    out@[t]@,
                    crate::rat::q_add(a@[t]@, b@[t]@),
                ),
            forall|t: int|
                0 <= t < i as int ==> q_representable(q_add((#[trigger] a@[t])@, b@[t]@)),
        decreases n - i,
    {
        match a[i].add(&b[i]) {
            Some(x) => out.push(x),
            None => {
                proof {
                    assert(!q_representable(q_add(a@[i as int]@, b@[i as int]@)));
                }
                return Err(MatError::Overflow);
            },
        }
        i += 1;
    }
    Ok(out)
}

/// The sum of a vector of rationals. Succeeds if and only if every
/// canonical partial sum is representable; the only failure is overflow.
pub fn vec_sum(v: &Vec<Rat>) -> (r: Option<Rat>)
    requires
        rat_seq_wf(v@),
    ensures
        r matches Some(s) ==> rat_wf(s) && q_eq(s@, q_sum(rats_view(v@))) && s@ == q_sum_chain(
            rats_view(v@),
            v@.len() as int,
        ),
        r is Some <==> q_sum_chain_ok(rats_view(v@), v@.len() as int),
{
    let ghost vals = rats_view(v@);
    proof {
        lemma_rats_view_wf(v@);
        assert(vals.take(0) =~= Seq::<QVal>::empty());
    }
    let n = v.len();
    let mut acc = Rat::zero();
    let mut i: usize = 0;
    while i < n
        invariant
            i <= n,
            n == v@.len(),
            rat_seq_wf(v@),
            vals == rats_view(v@),
            q_seq_wf(vals),
            rat_wf(acc),
            q_eq(acc@, q_sum(vals.take(i as int))),
            acc@ == q_sum_chain(vals, i as int),
            q_sum_chain_ok(vals, i as int),
        decreases n - i,
    {
        let x = v[i];
        proof {
            assert(x@ == vals[i as int]);
        }
        let next = match acc.add(&x) {
            Some(s) => s,
            None => {
                proof {
                    assert(!q_sum_chain_ok(vals, i as int + 1));
                    if q_sum_chain_ok(vals, n as int) {
                        lemma_q_sum_chain_ok_prefix(vals, i as int + 1, n as int);
                    }
                }
                return None;
            },
        };
        proof {
            lemma_q_sum_accumulate(acc@, next@, x@, vals, i as int);
            assert(next@ == q_sum_chain(vals, i as int + 1));
            assert(q_sum_chain_ok(vals, i as int + 1));
        }
        acc = next;
        i += 1;
    }
    proof {
        assert(vals.take(n as int) =~= vals);
    }
    Some(acc)
}

/// All inputs have at least one row and one entry.
pub open spec fn bl_nonempty(
    sigma: Seq<Seq<QVal>>,
    w: Seq<Rat>,
    p: Seq<Seq<QVal>>,
    q: Seq<Rat>,
    omega: Seq<Seq<QVal>>,
) -> bool {
    sigma.len() > 0 && w.len() > 0 && p.len() > 0 && q.len() > 0 && omega.len() > 0
}

/// The dimension contract of the model: sigma is square of size `n`, the
/// weights have length `n`, P has `n` columns, and omega is square of the
/// number of views `k`, which is also the length of Q.
pub open spec fn bl_dims_ok(
    sigma: Seq<Seq<QVal>>,
    w: Seq<Rat>,
    p: Seq<Seq<QVal>>,
    q: Seq<Rat>,
    omega: Seq<Seq<QVal>>,
) -> bool {
    &&& bl_nonempty(sigma, w, p, q, omega)
    &&& mat_cols(sigma) == sigma.len()
    &&& w.len() == sigma.len()
    &&& mat_cols(p) == sigma.len()
    &&& omega.len() == p.len()
    &&& mat_cols(omega) == p.len()
    &&& q.len() == p.len()
}

/// The posterior mean `v` follows the model on these inputs, witnessed by
/// the three inverses the computation used: of `tau * sigma`, of omega,
/// and of the posterior precision.
pub open spec fn bl_witness_ok(
    sigma: Seq<Seq<QVal>>,
    w: Seq<QVal>,
    tau: QVal,
    p: Seq<Seq<QVal>>,
    q: Seq<QVal>,
    omega: Seq<Seq<QVal>>,
    v: Seq<QVal>,
    tsi: Seq<Seq<QVal>>,
    oi: Seq<Seq<QVal>>,
    pc: Seq<Seq<QVal>>,
) -> bool {
    let n = sigma.len() as int;
    let k = p.len() as int;
    let ts = mat_scale_spec(tau, sigma);
    let pi = mat_vec_spec(ts, w);
    let ptoi = mat_mul_spec(mat_transpose_spec(p), oi);
    let precision = mat_add_spec(mat_mul_spec(ptoi, p), tsi);
    &&& inverse_pair(ts, tsi, n)
    &&& inverse_pair(omega, oi, k)
    &&& inverse_pair(precision, pc, n)
    &&& q_seq_eq(v, mat_vec_spec(pc, q_seq_add(mat_vec_spec(tsi, pi), mat_vec_spec(ptoi, q))))
}

/// Some choice of the three inverses witnesses the posterior mean `v`.
pub open spec fn bl_posterior_ok(
    sigma: Seq<Seq<QVal>>,
    w: Seq<QVal>,
    tau: QVal,
    p: Seq<Seq<QVal>>,
    q: Seq<QVal>,
    omega: Seq<Seq<QVal>>,
    v: Seq<QVal>,
) -> bool {
    exists|tsi: Seq<Seq<QVal>>, oi: Seq<Seq<QVal>>, pc: Seq<Seq<QVal>>|
        bl_witness_ok(sigma, w, tau, p, q, omega, v, tsi, oi, pc)
}

/// The Black-Litterman posterior expected-return vector.
///
/// Validates the dimension contract, scales the covariance by `tau`,
/// derives the implied equilibrium returns `pi`, and combines the
/// equilibrium with the views `(P, Q, omega)` by precision-weighted
/// blending. An inversion that finds no usable pivot surfaces as
/// `NearSingular`; this is the dominant failure mode and never panics.
pub fn black_litterman(
    sigma: &Matrix,
    market_weights: &Vec<Rat>,
    tau: &Rat,
    p: &Matrix,
    q: &Vec<Rat>,
    omega: &Matrix,
) -> (r: Result<Vec<Rat>, MatError>)
    requires
        sigma.wf(),
        p.wf(),
        omega.wf(),
        rat_wf(*tau),
        rat_seq_wf(market_weights@),
        rat_seq_wf(q@),
    ensures
        !bl_nonempty(sigma@, market_weights@, p@, q@, omega@) <==> r == Err::<
            Vec<Rat>,
            MatError,
        >(MatError::EmptyInput),
        bl_nonempty(sigma@, market_weights@, p@, q@, omega@) && !bl_dims_ok(
            sigma@,
            market_weights@,
            p@,
            q@,
            omega@,
        ) <==> r == Err::<Vec<Rat>, MatError>(MatError::DimMismatch),
        r matches Ok(v) ==> bl_dims_ok(sigma@, market_weights@, p@, q@, omega@) && rat_seq_wf(v@)
            && v@.len() == sigma@.len() && bl_posterior_ok(
            sigma@,
            rats_view(market_weights@),
            tau@,
            p@,
            rats_view(q@),
            omega@,
            rats_view(v@),
        ),
        r is Err ==> r == Err::<Vec<Rat>, MatError>(MatError::EmptyInput) || r == Err::<
            Vec<Rat>,
            MatError,
        >(MatError::DimMismatch) || r == Err::<Vec<Rat>, MatError>(MatError::NearSingular) || r
            == Err::<Vec<Rat>, MatError>(MatError::Overflow),
{
    proof {
        sigma.lemma_wf_view();
        p.lemma_wf_view();
        omega.lemma_wf_view();
        lemma_rats_view_wf(market_weights@);
        lemma_rats_view_wf(q@);
    }
    let n = sigma.rows();
    if n == 0 || market_weights.len() == 0 || p.rows() == 0 || q.len() == 0 || omega.rows() == 0 {
        return Err(MatError::EmptyInput);
    }
    if sigma.cols() != n {
        return Err(MatError::DimMismatch);
    }
    if market_weights.len() != n {
        return Err(MatError::DimMismatch);
    }
    if p.cols() != n {
        return Err(MatError::DimMismatch);
    }
    let k = p.rows();
    if omega.rows() != k || omega.cols() != k || q.len() != k {
        return Err(MatError::DimMismatch);
    }
    let ghost w_view = rats_view(market_weights@);
    let ghost q_view = rats_view(q@);
    let ghost ts_spec = mat_scale_spec(tau@, sigma@);
    proof {
        lemma_mat_scale_spec_wf(tau@, sigma@);
    }
    // tau * sigma, and the implied equilibrium returns pi.
    let ts = match sigma.scale(tau) {
        Ok(m) => m,
        Err(e) => {
            return Err(e);
        },
    };
    proof {
        ts.lemma_wf_view();
        assert(ts@.len() == n as int);
        assert(mat_cols(ts@) == n as int);
        assert(ts_spec.len() == n as int);
        assert(mat_cols(ts_spec) == n as int);
    }
    let ghost pi_spec = mat_vec_spec(ts_spec, w_view);
    let pi = match ts.mat_vec_mul(market_weights) {
        Ok(v) => v,
        Err(e) => {
            return Err(e);
        },
    };
    proof {
        lemma_rats_view_wf(pi@);
        lemma_mat_vec_spec_wf(ts@, w_view);
        lemma_mat_vec_spec_wf(ts_spec, w_view);
        lemma_mat_vec_congr(ts@, ts_spec, w_view, w_view);
        lemma_q_seq_eq_trans(rats_view(pi@), mat_vec_spec(ts@, w_view), pi_spec);
    }
    // The three inversions: tau * sigma, omega, and (later) the posterior
    // precision.
    let tau_sigma_inv = match ts.invert() {
        Ok(m) => m,
        Err(e) => {
            return Err(e);
        },
    };
    proof {
        tau_sigma_inv.lemma_wf_view();
        assert(inverse_pair(ts@, tau_sigma_inv@, n as int));
        lemma_inverse_pair_congr(ts@, ts_spec, tau_sigma_inv@, n as int);
    }
    let omega_inv = match omega.invert() {
        Ok(m) => m,
        Err(e) => {
            return Err(e);
        },
    };
    proof {
        omega_inv.lemma_wf_view();
        assert(inverse_pair(omega@, omega_inv@, k as int));
    }
    // P' * omega^-1, and P' * omega^-1 * P.
    let p_transposed = match p.transpose() {
        Ok(m) => m,
        Err(e) => {
            return Err(e);
        },
    };
    proof {
        p_transposed.lemma_wf_view();
        lemma_mat_transpose_spec_wf(p@);
        assert(p_transposed@.len() == n as int);
        assert(mat_cols(p_transposed@) == k as int);
    }
    let ghost ptoi_spec = mat_mul_spec(mat_transpose_spec(p@), omega_inv@);
    let pt_omega_inv = match p_transposed.multiply(&omega_inv) {
        Ok(m) => m,
        Err(e) => {
            return Err(e);
        },
    };
    proof {
        pt_omega_inv.lemma_wf_view();
        lemma_mat_mul_spec_wf(mat_transpose_spec(p@), omega_inv@);
        assert(pt_omega_inv@.len() == n as int);
        assert(mat_cols(pt_omega_inv@) == k as int);
        assert(ptoi_spec.len() == n as int);
        assert(mat_cols(ptoi_spec) == k as int);
    }
    let ghost ppt_spec = mat_mul_spec(ptoi_spec, p@);
    let p_pt_omega_inv = match pt_omega_inv.multiply(p) {
        Ok(m) => m,
        Err(e) => {
            return Err(e);
        },
    };
    proof {
        p_pt_omega_inv.lemma_wf_view();
        lemma_mat_mul_spec_wf(ptoi_spec, p@);
        lemma_mat_mul_spec_wf(pt_omega_inv@, p@);
        lemma_mat_mul_congr(pt_omega_inv@, ptoi_spec, p@, p@);
        lemma_mat_eq_trans(p_pt_omega_inv@, mat_mul_spec(pt_omega_inv@, p@), ppt_spec);
        assert(p_pt_omega_inv@.len() == n as int);
        assert(mat_cols(p_pt_omega_inv@) == n as int);
        assert(ppt_spec.len() == n as int);
        assert(mat_cols(ppt_spec) == n as int);
    }
    // The posterior precision and its inverse, the posterior covariance.
    let ghost precision_spec = mat_add_spec(ppt_spec, tau_sigma_inv@);
    let posterior_precision = match p_pt_omega_inv.add_mat(&tau_sigma_inv) {
        Ok(m) => m,
        Err(e) => {
            return Err(e);
        },
    };
    proof {
        posterior_precision.lemma_wf_view();
        lemma_mat_add_spec_wf(ppt_spec, tau_sigma_inv@);
        lemma_mat_add_spec_wf(p_pt_omega_inv@, tau_sigma_inv@);
        lemma_mat_add_congr(p_pt_omega_inv@, ppt_spec, tau_sigma_inv@, tau_sigma_inv@);
        lemma_mat_eq_trans(
            posterior_precision@,
            mat_add_spec(p_pt_omega_inv@, tau_sigma_inv@),
            precision_spec,
        );
        assert(posterior_precision@.len() == n as int);
        assert(mat_cols(posterior_precision@) == n as int);
    }
    let posterior_cov = match posterior_precision.invert() {
        Ok(m) => m,
        Err(e) => {
            return Err(e);
        },
    };
    proof {
        posterior_cov.lemma_wf_view();
        assert(inverse_pair(posterior_precision@, posterior_cov@, n as int));
        lemma_inverse_pair_congr(
            posterior_precision@,
            precision_spec,
            posterior_cov@,
            n as int,
        );
    }
    // (tau * sigma)^-1 * pi, P' * omega^-1 * Q, and their sum.
    let ghost first_spec = mat_vec_spec(tau_sigma_inv@, pi_spec);
    let first_term = match tau_sigma_inv.mat_vec_mul(&pi) {
        Ok(v) => v,
        Err(e) => {
            return Err(e);
        },
    };
    proof {
        lemma_rats_view_wf(first_term@);
        lemma_mat_vec_spec_wf(tau_sigma_inv@, rats_view(pi@));
        lemma_mat_vec_spec_wf(tau_sigma_inv@, pi_spec);
        lemma_mat_vec_congr(tau_sigma_inv@, tau_sigma_inv@, rats_view(pi@), pi_spec);
        lemma_q_seq_eq_trans(
            rats_view(first_term@),
            mat_vec_spec(tau_sigma_inv@, rats_view(pi@)),
            first_spec,
        );
    }
    let ghost second_spec = mat_vec_spec(ptoi_spec, q_view);
    let second_term = match pt_omega_inv.mat_vec_mul(q) {
        Ok(v) => v,
        Err(e) => {
            return Err(e);
        },
    };
    proof {
        lemma_rats_view_wf(second_term@);
        lemma_mat_vec_spec_wf(pt_omega_inv@, q_view);
        lemma_mat_vec_spec_wf(ptoi_spec, q_view);
        lemma_mat_vec_congr(pt_omega_inv@, ptoi_spec, q_view, q_view);
        lemma_q_seq_eq_trans(
            rats_view(second_term@),
            mat_vec_spec(pt_omega_inv@, q_view),
            second_spec,
        );
    }
    let ghost combined_spec = q_seq_add(first_spec, second_spec);
    let combined = match vec_add(&first_term, &second_term) {
        Ok(v) => v,
        Err(e) => {
            return Err(e);
        },
    };
    proof {
        lemma_rats_view_wf(combined@);
        lemma_q_seq_add_wf(rats_view(first_term@), rats_view(second_term@));
        lemma_q_seq_add_wf(first_spec, second_spec);
        lemma_q_seq_add_congr(
            rats_view(first_term@),
            first_spec,
            rats_view(second_term@),
            second_spec,
        );
        lemma_q_seq_eq_trans(
            rats_view(combined@),
            q_seq_add(rats_view(first_term@), rats_view(second_term@)),
            combined_spec,
        );
    }
    let ghost posterior_spec = mat_vec_spec(posterior_cov@, combined_spec);
    let posterior_mean = match posterior_cov.mat_vec_mul(&combined) {
        Ok(v) => v,
        Err(e) => {
            return Err(e);
        },
    };
    proof {
        lemma_rats_view_wf(posterior_mean@);
        lemma_mat_vec_spec_wf(posterior_cov@, rats_view(combined@));
        lemma_mat_vec_spec_wf(posterior_cov@, combined_spec);
        lemma_mat_vec_congr(posterior_cov@, posterior_cov@, rats_view(combined@), combined_spec);
        lemma_q_seq_eq_trans(
            rats_view(posterior_mean@),
            mat_vec_spec(posterior_cov@, rats_view(combined@)),
            posterior_spec,
        );
        assert(bl_witness_ok(
            sigma@,
            w_view,
            tau@,
            p@,
            q_view,
            omega@,
            rats_view(posterior_mean@),
            tau_sigma_inv@,
            omega_inv@,
            posterior_cov@,
        ));
    }
    Ok(posterior_mean)
}

/// The weights `v` follow the model on these inputs with threshold `t`,
/// witnessed by the inverse `ci` of the covariance: the raw weights are
/// `ci * expected_returns`, normalized by their sum when that sum's
/// absolute value exceeds `t`, and returned as they are otherwise.
pub open spec fn mvo_witness_ok(
    cov: Seq<Seq<QVal>>,
    arv: Seq<QVal>,
    t: QVal,
    v: Seq<QVal>,
    ci: Seq<Seq<QVal>>,
) -> bool {
    let raw = mat_vec_spec(ci, arv);
    let s = q_sum(raw);
    &&& inverse_pair(cov, ci, cov.len() as int)
    &&& if q_lt(t, q_abs(s)) {
        q_seq_eq(v, q_seq_div(raw, s)) && q_eq(q_sum(v), q_one())
    } else {
        q_seq_eq(v, raw)
    }
}

pub open spec fn mvo_posterior_ok(
    cov: Seq<Seq<QVal>>,
    arv: Seq<QVal>,
    t: QVal,
    v: Seq<QVal>,
) -> bool {
    exists|ci: Seq<Seq<QVal>>| mvo_witness_ok(cov, arv, t, v, ci)
}

/// Mean-variance optimization with a chosen degeneracy threshold: weights
/// proportional to `cov^-1 * expected_returns`, normalized to sum to one
/// unless the sum's absolute value is at most the threshold (then the raw
/// weights are returned unchanged, to avoid a blow-up on a degenerate
/// sum).
#[verifier::loop_isolation(false)]
pub fn mvo_with(cov: &Matrix, arv: Vec<Rat>, threshold: &Rat) -> (r: Result<Vec<Rat>, MatError>)
    requires
        cov.wf(),
        rat_seq_wf(arv@),
        rat_wf(*threshold),
        threshold.num >= 0,
    ensures
        (cov@.len() == 0 || arv@.len() == 0) <==> r == Err::<Vec<Rat>, MatError>(
            MatError::EmptyInput,
        ),
        cov@.len() > 0 && arv@.len() > 0 && (mat_cols(cov@) != cov@.len() || arv@.len()
            != cov@.len()) <==> r == Err::<Vec<Rat>, MatError>(MatError::DimMismatch),
        r matches Ok(v) ==> mat_cols(cov@) == cov@.len() && arv@.len() == cov@.len() && rat_seq_wf(
            v@,
        ) && v@.len() == cov@.len() && mvo_posterior_ok(
            cov@,
            rats_view(arv@),
            threshold@,
            rats_view(v@),
        ),
        r is Err ==> r == Err::<Vec<Rat>, MatError>(MatError::EmptyInput) || r == Err::<
            Vec<Rat>,
            MatError,
        >(MatError::DimMismatch) || r == Err::<Vec<Rat>, MatError>(MatError::NearSingular) || r
            == Err::<Vec<Rat>, MatError>(MatError::Overflow),
{
    proof {
        cov.lemma_wf_view();
        lemma_rats_view_wf(arv@);
    }
    let n = cov.rows();
    if n == 0 || arv.len() == 0 {
        return Err(MatError::EmptyInput);
    }
    if cov.cols() != n || arv.len() != n {
        return Err(MatError::DimMismatch);
    }
    let cov_inv = match cov.invert() {
        Ok(m) => m,
        Err(e) => {
            return Err(e);
        },
    };
    proof {
        cov_inv.lemma_wf_view();
        assert(inverse_pair(cov@, cov_inv@, n as int));
    }
    let ghost arv_view = rats_view(arv@);
    let ghost raw_spec = mat_vec_spec(cov_inv@, arv_view);
    let weights = match cov_inv.mat_vec_mul(&arv) {
        Ok(v) => v,
        Err(e) => {
            return Err(e);
        },
    };
    proof {
        lemma_rats_view_wf(weights@);
        lemma_mat_vec_spec_wf(cov_inv@, arv_view);
    }
    let ghost s_spec = q_sum(raw_spec);
    let sum = match vec_sum(&weights) {
        Some(s) => s,
        None => {
            return Err(MatError::Overflow);
        },
    };
    proof {
        lemma_q_sum_wf(rats_view(weights@));
        lemma_q_sum_wf(raw_spec);
        lemma_q_sum_congr(rats_view(weights@), raw_spec);
        lemma_q_eq_trans(sum@, q_sum(rats_view(weights@)), s_spec);
        lemma_q_abs_congr(sum@, s_spec);
        assert(q_wf(q_abs(sum@)));
        assert(q_wf(q_abs(s_spec)));
        lemma_q_lt_congr(threshold@, threshold@, q_abs(sum@), q_abs(s_spec));
    }
    let sum_abs = sum.abs();
    if threshold.lt(&sum_abs) {
        proof {
            lemma_q_abs_above_positive(threshold@, s_spec);
            lemma_q_is_zero_congr(sum@, s_spec);
        }
        let mut out: Vec<Rat> = Vec::new();
        let mut i: usize = 0;
        let nn = weights.len();
        while i < nn
            invariant
                i <= nn,
                nn == weights@.len(),
                rat_seq_wf(weights@),
                rat_wf(sum),
                sum.num != 0,
                q_eq(sum@, s_spec),
                q_wf(s_spec),
                s_spec.n != 0,
                s_spec == q_sum(raw_spec),
                q_seq_wf(raw_spec),
                raw_spec.len() == nn as int,
                q_seq_eq(rats_view(weights@), raw_spec),
                out@.len() == i as int,
                forall|t: int|
                    0 <= t < i as int ==> rat_wf(#[trigger] out@[t]) && q_eq(
                        out@[t]@,
                        q_div(raw_spec[t], s_spec),
                    ),
            decreases nn - i,
        {
            let x = weights[i];
            let y = match x.div(&sum) {
                Some(v) => v,
                None => {
                    return Err(MatError::Overflow);
                },
            };
            proof {
                assert(rats_view(weights@)[i as int] == x@);
                assert(q_eq(x@, raw_spec[i as int]));
                lemma_q_wf_div(x@, sum@);
                lemma_q_wf_div(raw_spec[i as int], s_spec);
                lemma_q_div_congr(x@, raw_spec[i as int], sum@, s_spec);
                lemma_q_eq_trans(
                    y@,
                    q_div(x@, sum@),
                    q_div(raw_spec[i as int], s_spec),
                );
            }
            out.push(y);
            i += 1;
        }
        proof {
            lemma_rats_view_wf(out@);
            assert(q_seq_eq(rats_view(out@), q_seq_div(raw_spec, s_spec)));
            lemma_normalized_weights_sum_to_one(raw_spec);
            // the sum of the produced weights equals the sum of the ideal
            // normalized weights, which is one
            assert forall|t: int| 0 <= t < q_seq_div(raw_spec, s_spec).len() implies q_wf(
                #[trigger] q_seq_div(raw_spec, s_spec)[t],
            ) by {
                lemma_q_wf_div(raw_spec[t], s_spec);
            }
            lemma_q_sum_congr(rats_view(out@), q_seq_div(raw_spec, s_spec));
            lemma_q_sum_wf(rats_view(out@));
            lemma_q_sum_wf(q_seq_div(raw_spec, s_spec));
            lemma_q_eq_trans(
                q_sum(rats_view(out@)),
                q_sum(q_seq_div(raw_spec, s_spec)),
                q_one(),
            );
            assert(mvo_witness_ok(cov@, arv_view, threshold@, rats_view(out@), cov_inv@));
        }
        Ok(out)
    } else {
        proof {
            assert(mvo_witness_ok(cov@, arv_view, threshold@, rats_view(weights@), cov_inv@));
        }
        Ok(weights)
    }
}

/// Mean-variance optimization with the default degeneracy threshold of
/// one part in ten billion.
pub fn mvo(cov: &Matrix, arv: Vec<Rat>) -> (r: Result<Vec<Rat>, MatError>)
    requires
        cov.wf(),
        rat_seq_wf(arv@),
    ensures
        (cov@.len() == 0 || arv@.len() == 0) <==> r == Err::<Vec<Rat>, MatError>(
            MatError::EmptyInput,
        ),
        cov@.len() > 0 && arv@.len() > 0 && (mat_cols(cov@) != cov@.len() || arv@.len()
            != cov@.len()) <==> r == Err::<Vec<Rat>, MatError>(MatError::DimMismatch),
        r matches Ok(v) ==> mat_cols(cov@) == cov@.len() && arv@.len() == cov@.len() && rat_seq_wf(
            v@,
        ) && v@.len() == cov@.len() && mvo_posterior_ok(
            cov@,
            rats_view(arv@),
            (QVal { n: 1, d: 10_000_000_000 }),
            rats_view(v@),
        ),
        r is Err ==> r == Err::<Vec<Rat>, MatError>(MatError::EmptyInput) || r == Err::<
            Vec<Rat>,
            MatError,
        >(MatError::DimMismatch) || r == Err::<Vec<Rat>, MatError>(MatError::NearSingular) || r
            == Err::<Vec<Rat>, MatError>(MatError::Overflow),
{
    let threshold = Rat { num: 1, den: 10_000_000_000 };
    mvo_with(cov, arv, &threshold)
}

} // verus!
