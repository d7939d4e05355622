//! Sums and pointwise operations over sequences of rationals.
//!
//! Matrix products, posterior means and weight normalization are all
//! stated through [`q_sum`] and [`q_dot`]; the lemmas here are the summation
//! laws those contracts and proofs rest on.

use vstd::prelude::*;
use crate::rat::{
    QVal, q_wf, q_eq, q_zero, q_add, q_mul, q_canon, q_representable, lemma_q_eq_trans,
    lemma_q_add_comm, lemma_q_add_assoc, lemma_q_add_congr, lemma_q_add_zero, lemma_q_mul_comm,
    lemma_q_mul_congr, lemma_q_mul_distrib, lemma_q_wf_add, lemma_q_wf_mul,
};

verus! {

// ---------------------------------------------------------------------------
// Accumulator chains: the exact sequence of canonical partial results a
// summation or inner-product loop stores. A loop succeeds if and only if
// every step of its chain is representable, and the success clauses of the
// executable functions say exactly that.
// ---------------------------------------------------------------------------

/// The canonical partial sum after folding the first `k` elements.
pub open spec fn q_sum_chain(s: Seq<QVal>, k: int) -> QVal
    decreases k,
{
    if k <= 0 {
        q_zero()
    } else {
        q_canon(q_add(q_sum_chain(s, k - 1), s[k - 1]))
    }
}

/// Every step of the summation chain is representable.
pub open spec fn q_sum_chain_ok(s: Seq<QVal>, k: int) -> bool
    decreases k,
{
    if k <= 0 {
        true
    } else {
        q_sum_chain_ok(s, k - 1) && q_representable(q_add(q_sum_chain(s, k - 1), s[k - 1]))
    }
}

/// A chain that is representable up to `m` is representable up to any
/// earlier point.
pub proof fn lemma_q_sum_chain_ok_prefix(s: Seq<QVal>, k: int, m: int)
    requires
        0 <= k <= m,
        q_sum_chain_ok(s, m),
    ensures
        q_sum_chain_ok(s, k),
    decreases m,
{
    if k < m {
        lemma_q_sum_chain_ok_prefix(s, k, m - 1);
    }
}

/// The canonical partial inner product after the first `k` terms: each
/// step takes the canonical product of one pair and adds it canonically.
pub open spec fn q_dot_chain(r: Seq<QVal>, c: Seq<QVal>, k: int) -> QVal
    decreases k,
{
    if k <= 0 {
        q_zero()
    } else {
        q_canon(q_add(q_dot_chain(r, c, k - 1), q_canon(q_mul(r[k - 1], c[k - 1]))))
    }
}

/// Every step of the inner-product chain is representable.
pub open spec fn q_dot_chain_ok(r: Seq<QVal>, c: Seq<QVal>, k: int) -> bool
    decreases k,
{
    if k <= 0 {
        true
    } else {
        &&& q_dot_chain_ok(r, c, k - 1)
        &&& q_representable(q_mul(r[k - 1], c[k - 1]))
        &&& q_representable(q_add(q_dot_chain(r, c, k - 1), q_canon(q_mul(r[k - 1], c[k - 1]))))
    }
}

pub proof fn lemma_q_dot_chain_ok_prefix(r: Seq<QVal>, c: Seq<QVal>, k: int, m: int)
    requires
        0 <= k <= m,
        q_dot_chain_ok(r, c, m),
    ensures
        q_dot_chain_ok(r, c, k),
    decreases m,
{
    if k < m {
        lemma_q_dot_chain_ok_prefix(r, c, k, m - 1);
    }
}

pub open spec fn q_seq_wf(s: Seq<QVal>) -> bool {
    forall|i: int| 0 <= i < s.len() ==> q_wf(#[trigger] s[i])
}

/// Pointwise rational equality of two sequences.
pub open spec fn q_seq_eq(a: Seq<QVal>, b: Seq<QVal>) -> bool {
    &&& a.len() == b.len()
    &&& forall|i: int| 0 <= i < a.len() ==> q_eq(#[trigger] a[i], b[i])
}

/// The sum of a sequence of rationals, folded from the left.
pub open spec fn q_sum(s: Seq<QVal>) -> QVal
    decreases s.len(),
{
    if s.len() == 0 {
        q_zero()
    } else {
        q_add(q_sum(s.drop_last()), s.last())
    }
}

/// Elementwise product of two sequences (of the length of the first).
pub open spec fn q_zip_mul(r: Seq<QVal>, c: Seq<QVal>) -> Seq<QVal> {
    Seq::new(r.len(), |k: int| q_mul(r[k], c[k]))
}

/// The inner product of two sequences.
pub open spec fn q_dot(r: Seq<QVal>, c: Seq<QVal>) -> QVal {
    q_sum(q_zip_mul(r, c))
}

/// Every element scaled by `c` on the right.
pub open spec fn q_seq_scale(s: Seq<QVal>, c: QVal) -> Seq<QVal> {
    Seq::new(s.len(), |i: int| q_mul(s[i], c))
}

/// Pointwise sum of two sequences of equal length.
pub open spec fn q_seq_add(a: Seq<QVal>, b: Seq<QVal>) -> Seq<QVal> {
    Seq::new(a.len(), |i: int| q_add(a[i], b[i]))
}

/// The inner product of the first `k` entries; loop bodies accumulate it.
pub open spec fn q_dot_prefix(r: Seq<QVal>, c: Seq<QVal>, k: int) -> QVal {
    q_sum(q_zip_mul(r.take(k), c.take(k)))
}

pub proof fn lemma_q_dot_prefix_zero(r: Seq<QVal>, c: Seq<QVal>)
    ensures
        q_dot_prefix(r, c, 0) == q_zero(),
{
    assert(q_zip_mul(r.take(0), c.take(0)).len() == 0);
}

/// Extending the prefix by one entry adds one product to the sum.
pub proof fn lemma_q_dot_prefix_step(r: Seq<QVal>, c: Seq<QVal>, k: int)
    requires
        0 <= k < r.len(),
        k < c.len(),
    ensures
        q_dot_prefix(r, c, k + 1) == q_add(q_dot_prefix(r, c, k), q_mul(r[k], c[k])),
{
    let full = q_zip_mul(r.take(k + 1), c.take(k + 1));
    assert(full.len() == k + 1);
    assert(full.drop_last() =~= q_zip_mul(r.take(k), c.take(k)));
    assert(full.last() == q_mul(r[k], c[k]));
}

/// A complete prefix is the whole inner product.
pub proof fn lemma_q_dot_prefix_full(r: Seq<QVal>, c: Seq<QVal>)
    requires
        r.len() <= c.len(),
    ensures
        q_dot_prefix(r, c, r.len() as int) == q_dot(r, c),
{
    assert(q_zip_mul(r.take(r.len() as int), c.take(r.len() as int)) =~= q_zip_mul(r, c));
}

/// One accumulation step of a plain summation loop.
pub proof fn lemma_q_sum_prefix_step(s: Seq<QVal>, k: int)
    requires
        0 <= k < s.len(),
    ensures
        q_sum(s.take(k + 1)) == q_add(q_sum(s.take(k)), s[k]),
{
    assert(s.take(k + 1).drop_last() =~= s.take(k));
    assert(s.take(k + 1).last() == s[k]);
}

/// One accumulation step of a summation loop over a sequence.
pub proof fn lemma_q_sum_accumulate(accv: QVal, newv: QVal, x: QVal, s: Seq<QVal>, k: int)
    requires
        q_seq_wf(s),
        0 <= k < s.len(),
        q_wf(accv),
        q_wf(newv),
        q_eq(accv, q_sum(s.take(k))),
        x == s[k],
        q_eq(newv, q_add(accv, x)),
    ensures
        q_eq(newv, q_sum(s.take(k + 1))),
{
    lemma_q_sum_prefix_step(s, k);
    assert(q_seq_wf(s.take(k)));
    lemma_q_sum_wf(s.take(k));
    lemma_q_add_congr(accv, q_sum(s.take(k)), x, s[k]);
    lemma_q_wf_add(accv, x);
    lemma_q_wf_add(q_sum(s.take(k)), s[k]);
    lemma_q_eq_trans(newv, q_add(accv, x), q_add(q_sum(s.take(k)), s[k]));
}

pub proof fn lemma_q_dot_prefix_wf(r: Seq<QVal>, c: Seq<QVal>, k: int)
    requires
        q_seq_wf(r),
        q_seq_wf(c),
        0 <= k <= r.len(),
        k <= c.len(),
    ensures
        q_wf(q_dot_prefix(r, c, k)),
{
    assert(q_seq_wf(r.take(k)));
    assert(q_seq_wf(c.take(k)));
    lemma_q_zip_mul_wf(r.take(k), c.take(k));
    lemma_q_sum_wf(q_zip_mul(r.take(k), c.take(k)));
}

/// One accumulation step of an inner-product loop: adding the `k`-th
/// product to a value equal to the `k`-prefix gives a value equal to the
/// `k + 1`-prefix.
pub proof fn lemma_q_dot_accumulate(
    accv: QVal,
    newv: QVal,
    pv: QVal,
    r: Seq<QVal>,
    c: Seq<QVal>,
    k: int,
)
    requires
        q_seq_wf(r),
        q_seq_wf(c),
        0 <= k < r.len(),
        k < c.len(),
        q_wf(accv),
        q_wf(newv),
        q_wf(pv),
        q_eq(accv, q_dot_prefix(r, c, k)),
        q_eq(pv, q_mul(r[k], c[k])),
        q_eq(newv, q_add(accv, pv)),
    ensures
        q_eq(newv, q_dot_prefix(r, c, k + 1)),
{
    lemma_q_dot_prefix_step(r, c, k);
    lemma_q_dot_prefix_wf(r, c, k);
    lemma_q_wf_mul(r[k], c[k]);
    lemma_q_add_congr(accv, q_dot_prefix(r, c, k), pv, q_mul(r[k], c[k]));
    lemma_q_wf_add(accv, pv);
    lemma_q_wf_add(q_dot_prefix(r, c, k), q_mul(r[k], c[k]));
    lemma_q_eq_trans(
        newv,
        q_add(accv, pv),
        q_add(q_dot_prefix(r, c, k), q_mul(r[k], c[k])),
    );
}

pub proof fn lemma_q_zip_mul_wf(r: Seq<QVal>, c: Seq<QVal>)
    requires
        q_seq_wf(r),
        q_seq_wf(c),
        r.len() <= c.len(),
    ensures
        q_seq_wf(q_zip_mul(r, c)),
{
    assert forall|i: int| 0 <= i < q_zip_mul(r, c).len() implies q_wf(
        #[trigger] q_zip_mul(r, c)[i],
    ) by {
        lemma_q_wf_mul(r[i], c[i]);
    }
}

/// Inner products of pointwise-equal sequences are equal.
pub proof fn lemma_q_dot_congr(r: Seq<QVal>, r2: Seq<QVal>, c: Seq<QVal>, c2: Seq<QVal>)
    requires
        q_seq_wf(r),
        q_seq_wf(r2),
        q_seq_wf(c),
        q_seq_wf(c2),
        q_seq_eq(r, r2),
        q_seq_eq(c, c2),
        r.len() <= c.len(),
    ensures
        q_eq(q_dot(r, c), q_dot(r2, c2)),
{
    lemma_q_zip_mul_wf(r, c);
    lemma_q_zip_mul_wf(r2, c2);
    assert forall|i: int| 0 <= i < q_zip_mul(r, c).len() implies q_eq(
        #[trigger] q_zip_mul(r, c)[i],
        q_zip_mul(r2, c2)[i],
    ) by {
        lemma_q_mul_congr(r[i], r2[i], c[i], c2[i]);
    }
    lemma_q_sum_congr(q_zip_mul(r, c), q_zip_mul(r2, c2));
}

pub proof fn lemma_q_sum_wf(s: Seq<QVal>)
    requires
        q_seq_wf(s),
    ensures
        q_wf(q_sum(s)),
    decreases s.len(),
{
    if s.len() == 0 {
    } else {
        lemma_q_sum_wf(s.drop_last());
        lemma_q_wf_add(q_sum(s.drop_last()), s.last());
    }
}

/// Sums of pointwise-equal sequences are equal.
pub proof fn lemma_q_sum_congr(a: Seq<QVal>, b: Seq<QVal>)
    requires
        q_seq_wf(a),
        q_seq_wf(b),
        q_seq_eq(a, b),
    ensures
        q_eq(q_sum(a), q_sum(b)),
    decreases a.len(),
{
    if a.len() == 0 {
    } else {
        lemma_q_sum_congr(a.drop_last(), b.drop_last());
        lemma_q_sum_wf(a.drop_last());
        lemma_q_sum_wf(b.drop_last());
        lemma_q_add_congr(
            q_sum(a.drop_last()),
            q_sum(b.drop_last()),
            a.last(),
            b.last(),
        );
    }
}

/// A sum of zeros is zero.
pub proof fn lemma_q_sum_zero(s: Seq<QVal>)
    requires
        q_seq_wf(s),
        forall|i: int| 0 <= i < s.len() ==> q_eq(#[trigger] s[i], q_zero()),
    ensures
        q_eq(q_sum(s), q_zero()),
    decreases s.len(),
{
    if s.len() == 0 {
    } else {
        lemma_q_sum_zero(s.drop_last());
        lemma_q_sum_wf(s.drop_last());
        lemma_q_add_congr(q_sum(s.drop_last()), q_zero(), s.last(), q_zero());
        lemma_q_add_zero(q_zero());
        lemma_q_wf_add(q_sum(s.drop_last()), s.last());
        lemma_q_wf_add(q_zero(), q_zero());
        lemma_q_eq_trans(q_sum(s), q_add(q_zero(), q_zero()), q_zero());
    }
}

/// A sum whose entries are all zero except at position `j` is the entry at
/// `j`.
pub proof fn lemma_q_sum_almost_zero(s: Seq<QVal>, j: int)
    requires
        q_seq_wf(s),
        0 <= j < s.len(),
        forall|t: int| 0 <= t < s.len() && t != j ==> q_eq(#[trigger] s[t], q_zero()),
    ensures
        q_eq(q_sum(s), s[j]),
    decreases s.len(),
{
    let s1 = s.drop_last();
    if j == s.len() - 1 {
        lemma_q_sum_zero(s1);
        lemma_q_sum_wf(s1);
        lemma_q_add_congr(q_sum(s1), q_zero(), s.last(), s.last());
        lemma_q_add_comm(q_zero(), s.last());
        lemma_q_add_zero(s.last());
        assert(q_add(q_zero(), s.last()) == s.last());
        lemma_q_wf_add(q_sum(s1), s.last());
        lemma_q_wf_add(q_zero(), s.last());
        lemma_q_eq_trans(q_sum(s), q_add(q_zero(), s.last()), s[j]);
    } else {
        lemma_q_sum_almost_zero(s1, j);
        lemma_q_sum_wf(s1);
        lemma_q_add_congr(q_sum(s1), s[j], s.last(), q_zero());
        lemma_q_add_zero(s[j]);
        lemma_q_wf_add(q_sum(s1), s.last());
        lemma_q_wf_add(s[j], q_zero());
        lemma_q_eq_trans(q_sum(s), q_add(s[j], q_zero()), s[j]);
    }
}

/// Summation commutes with pointwise addition.
pub proof fn lemma_q_sum_add(a: Seq<QVal>, b: Seq<QVal>)
    requires
        q_seq_wf(a),
        q_seq_wf(b),
        a.len() == b.len(),
    ensures
        q_eq(q_sum(q_seq_add(a, b)), q_add(q_sum(a), q_sum(b))),
    decreases a.len(),
{
    if a.len() == 0 {
        assert(q_seq_add(a, b).len() == 0);
        assert(q_sum(a) == q_zero());
        assert(q_sum(b) == q_zero());
        assert(q_sum(q_seq_add(a, b)) == q_zero());
        assert(q_add(q_zero(), q_zero()).n == 0 && q_add(q_zero(), q_zero()).d == 1);
        assert(q_eq(q_sum(q_seq_add(a, b)), q_add(q_sum(a), q_sum(b))));
    } else {
        let a1 = a.drop_last();
        let b1 = b.drop_last();
        assert(q_seq_add(a, b).drop_last() =~= q_seq_add(a1, b1));
        lemma_q_sum_add(a1, b1);
        lemma_q_sum_wf(a1);
        lemma_q_sum_wf(b1);
        lemma_q_seq_add_wf(a1, b1);
        lemma_q_sum_wf(q_seq_add(a1, b1));
        lemma_q_wf_add(a.last(), b.last());
        lemma_q_wf_add(q_sum(a1), q_sum(b1));
        // sum(add(a,b)) == add(sum(add(a1,b1)), a.last + b.last)
        //              ~ add(add(sum a1, sum b1), add(a.last, b.last))
        lemma_q_add_congr(
            q_sum(q_seq_add(a1, b1)),
            q_add(q_sum(a1), q_sum(b1)),
            q_add(a.last(), b.last()),
            q_add(a.last(), b.last()),
        );
        // rearrange (w + x) + (y + z) into (w + y) + (x + z), structurally
        let w = q_sum(a1);
        let x = q_sum(b1);
        let y = a.last();
        let z = b.last();
        lemma_q_add_rearrange(w, x, y, z);
        lemma_q_wf_add(q_sum(q_seq_add(a1, b1)), q_add(a.last(), b.last()));
        lemma_q_wf_add(w, x);
        lemma_q_wf_add(y, z);
        lemma_q_wf_add(w, y);
        lemma_q_wf_add(x, z);
        lemma_q_wf_add(q_add(w, x), q_add(y, z));
        lemma_q_wf_add(q_add(w, y), q_add(x, z));
        assert(q_sum(a) == q_add(w, y));
        assert(q_sum(b) == q_add(x, z));
        assert(q_seq_add(a, b).last() == q_add(y, z));
        assert(q_sum(q_seq_add(a, b)) == q_add(q_sum(q_seq_add(a1, b1)), q_add(y, z)));
        lemma_q_eq_trans(
            q_sum(q_seq_add(a, b)),
            q_add(q_add(w, x), q_add(y, z)),
            q_add(q_add(w, y), q_add(x, z)),
        );
        assert(q_eq(q_sum(q_seq_add(a, b)), q_add(q_sum(a), q_sum(b))));
    }
}

/// `(w + x) + (y + z) == (w + y) + (x + z)`, structurally.
pub proof fn lemma_q_add_rearrange(w: QVal, x: QVal, y: QVal, z: QVal)
    ensures
        q_eq(q_add(q_add(w, x), q_add(y, z)), q_add(q_add(w, y), q_add(x, z))),
{
    lemma_q_add_assoc(q_add(w, x), y, z);
    lemma_q_add_assoc(w, x, y);
    lemma_q_add_comm(x, y);
    lemma_q_add_assoc(w, y, x);
    lemma_q_add_assoc(q_add(w, y), x, z);
    // ((w+x)+y)+z == ((w+y)+x)+z == (w+y)+(x+z), and
    // (w+x)+(y+z) == ((w+x)+y)+z, all structural.
}

pub proof fn lemma_q_seq_eq_trans(a: Seq<QVal>, b: Seq<QVal>, c: Seq<QVal>)
    requires
        q_seq_wf(a),
        q_seq_wf(b),
        q_seq_wf(c),
        q_seq_eq(a, b),
        q_seq_eq(b, c),
    ensures
        q_seq_eq(a, c),
{
    assert forall|i: int| 0 <= i < a.len() implies q_eq(#[trigger] a[i], c[i]) by {
        lemma_q_eq_trans(a[i], b[i], c[i]);
    }
}

/// Pointwise addition respects pointwise equality.
pub proof fn lemma_q_seq_add_congr(a: Seq<QVal>, a2: Seq<QVal>, b: Seq<QVal>, b2: Seq<QVal>)
    requires
        q_seq_wf(a),
        q_seq_wf(a2),
        q_seq_wf(b),
        q_seq_wf(b2),
        q_seq_eq(a, a2),
        q_seq_eq(b, b2),
        a.len() == b.len(),
    ensures
        q_seq_eq(q_seq_add(a, b), q_seq_add(a2, b2)),
{
    assert forall|i: int| 0 <= i < q_seq_add(a, b).len() implies q_eq(
        #[trigger] q_seq_add(a, b)[i],
        q_seq_add(a2, b2)[i],
    ) by {
        lemma_q_add_congr(a[i], a2[i], b[i], b2[i]);
    }
}

pub proof fn lemma_q_seq_add_wf(a: Seq<QVal>, b: Seq<QVal>)
    requires
        q_seq_wf(a),
        q_seq_wf(b),
        a.len() == b.len(),
    ensures
        q_seq_wf(q_seq_add(a, b)),
{
    assert forall|i: int| 0 <= i < q_seq_add(a, b).len() implies q_wf(
        #[trigger] q_seq_add(a, b)[i],
    ) by {
        lemma_q_wf_add(a[i], b[i]);
    }
}

pub proof fn lemma_q_seq_scale_wf(s: Seq<QVal>, c: QVal)
    requires
        q_seq_wf(s),
        q_wf(c),
    ensures
        q_seq_wf(q_seq_scale(s, c)),
{
    assert forall|i: int| 0 <= i < q_seq_scale(s, c).len() implies q_wf(
        #[trigger] q_seq_scale(s, c)[i],
    ) by {
        lemma_q_wf_mul(s[i], c);
    }
}

/// Summation commutes with scaling: `sum(s * c) == sum(s) * c`.
pub proof fn lemma_q_sum_scale(s: Seq<QVal>, c: QVal)
    requires
        q_seq_wf(s),
        q_wf(c),
    ensures
        q_eq(q_sum(q_seq_scale(s, c)), q_mul(q_sum(s), c)),
    decreases s.len(),
{
    if s.len() == 0 {
        assert(q_seq_scale(s, c).len() == 0);
        assert(q_eq(q_zero(), q_mul(q_zero(), c))) by (nonlinear_arith);
    } else {
        let s1 = s.drop_last();
        assert(q_seq_scale(s, c).drop_last() =~= q_seq_scale(s1, c));
        lemma_q_sum_scale(s1, c);
        lemma_q_sum_wf(s1);
        lemma_q_seq_scale_wf(s1, c);
        lemma_q_sum_wf(q_seq_scale(s1, c));
        lemma_q_wf_mul(q_sum(s1), c);
        lemma_q_wf_mul(s.last(), c);
        // sum(scale(s)) == add(sum(scale(s1)), s.last * c)
        //              ~ add(sum(s1) * c, s.last * c)
        lemma_q_add_congr(
            q_sum(q_seq_scale(s1, c)),
            q_mul(q_sum(s1), c),
            q_mul(s.last(), c),
            q_mul(s.last(), c),
        );
        // ~ (sum(s1) + s.last) * c, by distributivity and commutativity
        lemma_q_mul_distrib(c, q_sum(s1), s.last());
        lemma_q_mul_comm(c, q_sum(s1));
        lemma_q_mul_comm(c, s.last());
        lemma_q_mul_comm(c, q_add(q_sum(s1), s.last()));
        lemma_q_wf_add(q_sum(s1), s.last());
        lemma_q_wf_add(q_mul(q_sum(s1), c), q_mul(s.last(), c));
        lemma_q_wf_mul(q_add(q_sum(s1), s.last()), c);
        lemma_q_wf_add(q_sum(q_seq_scale(s1, c)), q_mul(s.last(), c));
        lemma_q_eq_trans(
            q_sum(q_seq_scale(s, c)),
            q_add(q_mul(q_sum(s1), c), q_mul(s.last(), c)),
            q_mul(q_add(q_sum(s1), s.last()), c),
        );
    }
}

} // verus!
