//! Exact rational scalars.
//!
//! Every quantity in the pipeline is a rational `num / den`. The
//! specification-level value of a `Rat` is a [`QVal`]: a pair of unbounded
//! integers with a positive denominator. Two `QVal`s denote the same
//! rational when they agree under cross-multiplication ([`q_eq`]), and all
//! contracts in this crate state results up to that equality.

use vstd::prelude::*;
use vstd::arithmetic::div_mod::{lemma_fundamental_div_mod, lemma_mod_multiples_basic};
use vstd::arithmetic::mul::{lemma_mul_is_distributive_add, lemma_mul_is_distributive_add_other_way};

verus! {

/// A rational number at the specification level: `n / d`.
pub ghost struct QVal {
    pub n: int,
    pub d: int,
}

/// Well-formed specification rationals keep the denominator positive.
pub open spec fn q_wf(a: QVal) -> bool {
    a.d > 0
}

/// `a` and `b` denote the same rational: `a.n / a.d == b.n / b.d`.
pub open spec fn q_eq(a: QVal, b: QVal) -> bool {
    a.n * b.d == b.n * a.d
}

pub open spec fn q_zero() -> QVal {
    QVal { n: 0, d: 1 }
}

pub open spec fn q_one() -> QVal {
    QVal { n: 1, d: 1 }
}

pub open spec fn q_from_int(i: int) -> QVal {
    QVal { n: i, d: 1 }
}

pub open spec fn q_add(a: QVal, b: QVal) -> QVal {
    QVal { n: a.n * b.d + b.n * a.d, d: a.d * b.d }
}

pub open spec fn q_neg(a: QVal) -> QVal {
    QVal { n: -a.n, d: a.d }
}

pub open spec fn q_sub(a: QVal, b: QVal) -> QVal {
    q_add(a, q_neg(b))
}

pub open spec fn q_mul(a: QVal, b: QVal) -> QVal {
    QVal { n: a.n * b.n, d: a.d * b.d }
}

/// The reciprocal, with the sign moved into the numerator so that a
/// well-formed nonzero input yields a well-formed output.
pub open spec fn q_inv(a: QVal) -> QVal {
    if a.n >= 0 {
        QVal { n: a.d, d: a.n }
    } else {
        QVal { n: -a.d, d: -a.n }
    }
}

pub open spec fn q_div(a: QVal, b: QVal) -> QVal {
    q_mul(a, q_inv(b))
}

/// `a <= b` as rationals (assuming both are well-formed).
pub open spec fn q_le(a: QVal, b: QVal) -> bool {
    a.n * b.d <= b.n * a.d
}

pub open spec fn q_lt(a: QVal, b: QVal) -> bool {
    a.n * b.d < b.n * a.d
}

pub open spec fn q_abs(a: QVal) -> QVal {
    if a.n >= 0 {
        a
    } else {
        q_neg(a)
    }
}

pub open spec fn q_is_zero(a: QVal) -> bool {
    a.n == 0
}

/// The value fits the executable representation without reduction, so the
/// corresponding executable operation is guaranteed to succeed.
pub open spec fn q_in_range(a: QVal) -> bool {
    &&& -(i64::MAX as int) <= a.n <= i64::MAX as int
    &&& 1 <= a.d <= i64::MAX as int
}

/// `d` divides `a`.
pub open spec fn divides(d: int, a: int) -> bool {
    exists|k: int| a == #[trigger] (d * k)
}

/// The greatest common divisor by Euclid's recursion (intended for
/// non-negative arguments; the executable reduction computes exactly this).
pub open spec fn gcd_int(a: int, b: int) -> int
    decreases b,
{
    if b <= 0 {
        a
    } else {
        gcd_int(b, a % b)
    }
}

/// The canonical (fully reduced) representative of a rational with a
/// positive denominator: both components divided by their greatest common
/// divisor, and zero written as zero over one. Every value the executable
/// arithmetic produces is canonical.
pub open spec fn q_canon(a: QVal) -> QVal {
    if a.n == 0 {
        q_zero()
    } else {
        let m = if a.n >= 0 {
            a.n
        } else {
            -a.n
        };
        let g = gcd_int(m, a.d);
        QVal { n: a.n / g, d: a.d / g }
    }
}

/// The canonical form of the value fits the executable representation:
/// exactly the condition under which the operation producing it succeeds.
pub open spec fn q_representable(a: QVal) -> bool {
    q_in_range(q_canon(a))
}

// ---------------------------------------------------------------------------
// Laws of the rational algebra. Everything downstream reasons about values
// only through these lemmas and the definitions above.
// ---------------------------------------------------------------------------

/// Rational equality is transitive on well-formed values.
pub proof fn lemma_q_eq_trans(a: QVal, b: QVal, c: QVal) by (nonlinear_arith)
    requires
        q_wf(a),
        q_wf(b),
        q_wf(c),
        q_eq(a, b),
        q_eq(b, c),
    ensures
        q_eq(a, c),
{
}

/// Addition is commutative (structurally, up to integer commutativity).
pub proof fn lemma_q_add_comm(a: QVal, b: QVal) by (nonlinear_arith)
    ensures
        q_add(a, b) == q_add(b, a),
{
}

/// Multiplication is commutative.
pub proof fn lemma_q_mul_comm(a: QVal, b: QVal) by (nonlinear_arith)
    ensures
        q_mul(a, b) == q_mul(b, a),
{
}

/// Multiplication is associative.
pub proof fn lemma_q_mul_assoc(a: QVal, b: QVal, c: QVal) by (nonlinear_arith)
    ensures
        q_mul(q_mul(a, b), c) == q_mul(a, q_mul(b, c)),
{
}

/// Addition is associative (structurally, up to integer ring identities).
pub proof fn lemma_q_add_assoc(a: QVal, b: QVal, c: QVal)
    ensures
        q_add(q_add(a, b), c) == q_add(a, q_add(b, c)),
{
    lemma_mul_is_distributive_add_other_way(c.d, a.n * b.d, b.n * a.d);
    lemma_mul_is_distributive_add_other_way(a.d, b.n * c.d, c.n * b.d);
    assert((a.n * b.d) * c.d == a.n * (b.d * c.d)) by (nonlinear_arith);
    assert((b.n * a.d) * c.d == (b.n * c.d) * a.d) by (nonlinear_arith);
    assert(c.n * (a.d * b.d) == (c.n * b.d) * a.d) by (nonlinear_arith);
    assert((a.d * b.d) * c.d == a.d * (b.d * c.d)) by (nonlinear_arith);
}

/// Replacing the left summand by an equal rational keeps the sum equal.
pub proof fn lemma_q_add_congr_left(a: QVal, a2: QVal, b: QVal) by (nonlinear_arith)
    requires
        q_wf(a),
        q_wf(a2),
        q_wf(b),
        q_eq(a, a2),
    ensures
        q_eq(q_add(a, b), q_add(a2, b)),
{
}

/// Replacing either summand by an equal rational keeps the sum equal.
pub proof fn lemma_q_add_congr(a: QVal, a2: QVal, b: QVal, b2: QVal)
    requires
        q_wf(a),
        q_wf(a2),
        q_wf(b),
        q_wf(b2),
        q_eq(a, a2),
        q_eq(b, b2),
    ensures
        q_eq(q_add(a, b), q_add(a2, b2)),
{
    lemma_q_add_congr_left(a, a2, b);
    lemma_q_add_comm(a2, b);
    lemma_q_add_comm(a2, b2);
    lemma_q_add_congr_left(b, b2, a2);
    lemma_q_wf_add(a, b);
    lemma_q_wf_add(a2, b);
    lemma_q_wf_add(a2, b2);
    lemma_q_eq_trans(q_add(a, b), q_add(a2, b), q_add(a2, b2));
}

/// Replacing the left factor by an equal rational keeps the product equal.
pub proof fn lemma_q_mul_congr_left(a: QVal, a2: QVal, b: QVal) by (nonlinear_arith)
    requires
        q_wf(a),
        q_wf(a2),
        q_wf(b),
        q_eq(a, a2),
    ensures
        q_eq(q_mul(a, b), q_mul(a2, b)),
{
}

/// Replacing either factor by an equal rational keeps the product equal.
pub proof fn lemma_q_mul_congr(a: QVal, a2: QVal, b: QVal, b2: QVal)
    requires
        q_wf(a),
        q_wf(a2),
        q_wf(b),
        q_wf(b2),
        q_eq(a, a2),
        q_eq(b, b2),
    ensures
        q_eq(q_mul(a, b), q_mul(a2, b2)),
{
    lemma_q_mul_congr_left(a, a2, b);
    lemma_q_mul_comm(a2, b);
    lemma_q_mul_comm(a2, b2);
    lemma_q_mul_congr_left(b, b2, a2);
    lemma_q_wf_mul(a, b);
    lemma_q_wf_mul(a2, b);
    lemma_q_wf_mul(a2, b2);
    lemma_q_eq_trans(q_mul(a, b), q_mul(a2, b), q_mul(a2, b2));
}

/// Multiplication distributes over addition up to rational equality.
pub proof fn lemma_q_mul_distrib(a: QVal, b: QVal, c: QVal)
    requires
        q_wf(a),
        q_wf(b),
        q_wf(c),
    ensures
        q_eq(q_mul(a, q_add(b, c)), q_add(q_mul(a, b), q_mul(a, c))),
{
    // The right-hand side is the left-hand side with both components
    // scaled by `a.d`, which leaves the denoted rational unchanged.
    lemma_distrib_core(a.n, a.d, b.n, b.d, c.n, c.d);
    assert((a.d * b.d) * (a.d * c.d) == a.d * (a.d * (b.d * c.d))) by (nonlinear_arith);
    assert(q_eq(q_mul(a, q_add(b, c)), q_add(q_mul(a, b), q_mul(a, c)))) by (nonlinear_arith)
        requires
            q_add(q_mul(a, b), q_mul(a, c)).n == a.d * q_mul(a, q_add(b, c)).n,
            q_add(q_mul(a, b), q_mul(a, c)).d == a.d * q_mul(a, q_add(b, c)).d,
    ;
}

/// The numerator identity behind [`lemma_q_mul_distrib`].
proof fn lemma_distrib_core(an: int, ad: int, bn: int, bd: int, cn: int, cd: int)
    ensures
        (an * bn) * (ad * cd) + (an * cn) * (ad * bd) == ad * (an * (bn * cd + cn * bd)),
{
    lemma_mul_is_distributive_add(an, bn * cd, cn * bd);
    lemma_mul_is_distributive_add(ad, an * (bn * cd), an * (cn * bd));
    assert((an * bn) * (ad * cd) == ad * (an * (bn * cd))) by (nonlinear_arith);
    assert((an * cn) * (ad * bd) == ad * (an * (cn * bd))) by (nonlinear_arith);
}

/// Flipping the sign of both sides of a cross-multiplication equation.
proof fn lemma_neg_cross(vn: int, vd: int, n: int, d: int)
    requires
        vn * (-d) == (-n) * vd,
    ensures
        vn * d == n * vd,
{
    assert(vn * (-d) == -(vn * d)) by (nonlinear_arith);
    assert((-n) * vd == -(n * vd)) by (nonlinear_arith);
}

/// Adding zero changes nothing.
pub proof fn lemma_q_add_zero(a: QVal)
    ensures
        q_add(a, q_zero()) == a,
{
}

/// Multiplying by one changes nothing.
pub proof fn lemma_q_mul_one(a: QVal)
    ensures
        q_mul(a, q_one()) == a,
{
}

/// Multiplying by zero gives zero.
pub proof fn lemma_q_mul_zero(a: QVal)
    ensures
        q_eq(q_mul(a, q_zero()), q_zero()),
{
}

/// A nonzero rational times its reciprocal is one.
pub proof fn lemma_q_mul_inv(a: QVal) by (nonlinear_arith)
    requires
        q_wf(a),
        a.n != 0,
    ensures
        q_eq(q_mul(a, q_inv(a)), q_one()),
{
}

/// Subtraction respects rational equality.
pub proof fn lemma_q_sub_congr(a: QVal, a2: QVal, b: QVal, b2: QVal)
    requires
        q_wf(a),
        q_wf(a2),
        q_wf(b),
        q_wf(b2),
        q_eq(a, a2),
        q_eq(b, b2),
    ensures
        q_eq(q_sub(a, b), q_sub(a2, b2)),
        q_wf(q_sub(a, b)),
        q_wf(q_sub(a2, b2)),
{
    lemma_q_neg_congr(b, b2);
    lemma_q_add_congr(a, a2, q_neg(b), q_neg(b2));
    lemma_q_wf_add(a, q_neg(b));
    lemma_q_wf_add(a2, q_neg(b2));
}

/// Quotients by nonzero values are well-formed.
pub proof fn lemma_q_wf_div(a: QVal, b: QVal)
    requires
        q_wf(a),
        q_wf(b),
        b.n != 0,
    ensures
        q_wf(q_div(a, b)),
{
    assert(q_wf(q_inv(b)));
    lemma_q_wf_mul(a, q_inv(b));
}

/// Negation respects rational equality.
pub proof fn lemma_q_neg_congr(a: QVal, b: QVal) by (nonlinear_arith)
    requires
        q_eq(a, b),
    ensures
        q_eq(q_neg(a), q_neg(b)),
{
}

/// Sums of well-formed values are well-formed.
pub proof fn lemma_q_wf_add(a: QVal, b: QVal) by (nonlinear_arith)
    requires
        q_wf(a),
        q_wf(b),
    ensures
        q_wf(q_add(a, b)),
{
}

/// Products of well-formed values are well-formed.
pub proof fn lemma_q_wf_mul(a: QVal, b: QVal) by (nonlinear_arith)
    requires
        q_wf(a),
        q_wf(b),
    ensures
        q_wf(q_mul(a, b)),
{
}

/// The ordering of rationals is transitive.
pub proof fn lemma_q_le_trans(a: QVal, b: QVal, c: QVal) by (nonlinear_arith)
    requires
        q_wf(a),
        q_wf(b),
        q_wf(c),
        q_le(a, b),
        q_le(b, c),
    ensures
        q_le(a, c),
{
}

/// Strict comparison respects rational equality.
pub proof fn lemma_q_lt_congr(a: QVal, a2: QVal, b: QVal, b2: QVal) by (nonlinear_arith)
    requires
        q_wf(a),
        q_wf(a2),
        q_wf(b),
        q_wf(b2),
        q_eq(a, a2),
        q_eq(b, b2),
    ensures
        q_lt(a, b) == q_lt(a2, b2),
{
}

/// Being zero respects rational equality.
pub proof fn lemma_q_is_zero_congr(a: QVal, b: QVal) by (nonlinear_arith)
    requires
        q_wf(a),
        q_wf(b),
        q_eq(a, b),
    ensures
        q_is_zero(a) == q_is_zero(b),
{
}

/// The reciprocal respects rational equality (on nonzero values).
pub proof fn lemma_q_inv_congr(a: QVal, b: QVal) by (nonlinear_arith)
    requires
        q_wf(a),
        q_wf(b),
        a.n != 0,
        b.n != 0,
        q_eq(a, b),
    ensures
        q_wf(q_inv(a)),
        q_wf(q_inv(b)),
        q_eq(q_inv(a), q_inv(b)),
{
}

/// Division respects rational equality (on nonzero divisors).
pub proof fn lemma_q_div_congr(a: QVal, a2: QVal, b: QVal, b2: QVal)
    requires
        q_wf(a),
        q_wf(a2),
        q_wf(b),
        q_wf(b2),
        b.n != 0,
        b2.n != 0,
        q_eq(a, a2),
        q_eq(b, b2),
    ensures
        q_eq(q_div(a, b), q_div(a2, b2)),
{
    lemma_q_inv_congr(b, b2);
    lemma_q_mul_congr(a, a2, q_inv(b), q_inv(b2));
}

/// The absolute value respects rational equality.
pub proof fn lemma_q_abs_congr(a: QVal, b: QVal) by (nonlinear_arith)
    requires
        q_wf(a),
        q_wf(b),
        q_eq(a, b),
    ensures
        q_eq(q_abs(a), q_abs(b)),
{
}

/// A value whose absolute value exceeds a non-negative bound is nonzero.
pub proof fn lemma_q_abs_above_positive(t: QVal, s: QVal) by (nonlinear_arith)
    requires
        q_wf(t),
        q_wf(s),
        t.n >= 0,
        q_lt(t, q_abs(s)),
    ensures
        s.n != 0,
{
}

/// A bound on products from bounds on the factors.
pub proof fn lemma_mul_bound(x: int, y: int, bx: int, by: int) by (nonlinear_arith)
    requires
        -bx <= x <= bx,
        -by <= y <= by,
        0 <= bx,
        0 <= by,
    ensures
        -(bx * by) <= x * y <= bx * by,
{
}

// ---------------------------------------------------------------------------
// Executable rationals.
// ---------------------------------------------------------------------------

/// An exact rational scalar: `num / den`.
///
/// The representation keeps `den >= 1` and `num > i64::MIN`, so that any
/// cross product of two components fits in an `i128` and any sum of two such
/// products does too. Arithmetic reduces results by their greatest common
/// divisor and reports `None` when a reduced result still falls outside the
/// representable range.
#[derive(Clone, Copy, Debug)]
pub struct Rat {
    pub num: i64,
    pub den: i64,
}

impl View for Rat {
    type V = QVal;

    open spec fn view(&self) -> QVal {
        QVal { n: self.num as int, d: self.den as int }
    }
}

pub open spec fn rat_wf(r: Rat) -> bool {
    &&& 1 <= r.den
    &&& i64::MIN < r.num
}

/// Greatest-common-divisor computation used to keep representations small.
/// Computes exactly [`gcd_int`], a positive common divisor of `a` and `b`.
fn gcd_u128(a: u128, b: u128) -> (g: u128)
    requires
        a >= 1,
    ensures
        1 <= g,
        divides(g as int, a as int),
        divides(g as int, b as int),
        g as int == gcd_int(a as int, b as int),
    decreases b,
{
    if b == 0 {
        proof {
            assert(a as int == (a as int) * 1);
            assert(0int == (a as int) * 0);
        }
        a
    } else {
        let r = a % b;
        let g = gcd_u128(b, r);
        proof {
            let k1 = choose|k: int| b as int == #[trigger] ((g as int) * k);
            let k2 = choose|k: int| r as int == #[trigger] ((g as int) * k);
            lemma_fundamental_div_mod(a as int, b as int);
            let q = (a as int) / (b as int);
            assert(a as int == (b as int) * q + (r as int));
            assert((g as int) * k1 * q + (g as int) * k2 == (g as int) * (k1 * q + k2))
                by (nonlinear_arith);
            assert(a as int == (g as int) * (k1 * q + k2));
        }
        g
    }
}

/// Divide out a known divisor exactly: `a == g * (a / g)`.
proof fn lemma_exact_division(a: int, g: int)
    requires
        g >= 1,
        a >= 0,
        divides(g, a),
    ensures
        a == g * (a / g),
        0 <= a / g <= a,
        a >= 1 ==> a / g >= 1,
{
    let k = choose|kk: int| a == #[trigger] (g * kk);
    assert(g * k == k * g) by (nonlinear_arith);
    lemma_mod_multiples_basic(k, g);
    lemma_fundamental_div_mod(a, g);
    assert(a == g * (a / g));
    let q = a / g;
    assert(0 <= q && q <= a) by (nonlinear_arith)
        requires
            g >= 1,
            a >= 0,
            a == g * q,
    ;
    assert(a >= 1 ==> q >= 1) by (nonlinear_arith)
        requires
            g >= 1,
            a == g * q,
    ;
}

/// Reduce `n / d` to canonical form and pack it into a `Rat` when it fits.
fn reduce(n: i128, d: i128) -> (r: Option<Rat>)
    requires
        1 <= d,
        i128::MIN < n,
    ensures
        r matches Some(v) ==> rat_wf(v) && (v.num as int) * d == n * (v.den as int),
        -(i64::MAX as int) <= n <= i64::MAX as int && d <= i64::MAX as int ==> r is Some,
        r matches Some(v) ==> v@ == q_canon((QVal { n: n as int, d: d as int })),
        r is Some <==> q_representable((QVal { n: n as int, d: d as int })),
{
    let ghost raw = QVal { n: n as int, d: d as int };
    if n == 0 {
        proof {
            assert(q_canon(raw) == q_zero());
        }
        Some(Rat { num: 0, den: 1 })
    } else {
        let ua: u128 = if n > 0 {
            n as u128
        } else {
            (-n) as u128
        };
        let g = gcd_u128(ua, d as u128);
        proof {
            lemma_exact_division(ua as int, g as int);
            lemma_exact_division(d as int, g as int);
        }
        let un: u128 = ua / g;
        let ud: u128 = (d as u128) / g;
        proof {
            // The result components are exactly the canonical form's.
            let gi = g as int;
            let uni = un as int;
            let udi = ud as int;
            assert(q_canon(raw).d == udi);
            if n > 0 {
                assert(q_canon(raw).n == uni);
            } else {
                // n == g * (-un), so the Euclidean quotient n / g is -un.
                assert(-((gi) * uni) == gi * (-uni)) by (nonlinear_arith);
                assert(n as int == gi * (-uni));
                assert((-uni) * gi == gi * (-uni)) by (nonlinear_arith);
                lemma_mod_multiples_basic(-uni, gi);
                lemma_fundamental_div_mod(n as int, gi);
                assert((n as int) / gi == -uni) by (nonlinear_arith)
                    requires
                        gi >= 1,
                        gi * ((n as int) / gi) == gi * (-uni),
                ;
                assert(q_canon(raw).n == -uni);
            }
        }
        if un <= i64::MAX as u128 && ud <= i64::MAX as u128 {
            let num: i64 = if n > 0 {
                un as i64
            } else {
                -(un as i64)
            };
            let den: i64 = ud as i64;
            proof {
                let gi = g as int;
                let uni = un as int;
                let udi = ud as int;
                assert(uni * (gi * udi) == (gi * uni) * udi) by (nonlinear_arith);
                assert((-uni) * (gi * udi) == (-(gi * uni)) * udi) by (nonlinear_arith);
                assert(n > 0 ==> n == gi * uni);
                assert(n < 0 ==> n == -(gi * uni));
            }
            Some(Rat { num, den })
        } else {
            None
        }
    }
}

impl Rat {
    /// The rational `num / den`. `None` when `den == 0` or when the reduced
    /// value does not fit the representation; any `num / den` with
    /// `den >= 1`, both components above `i64::MIN`, is accepted.
    pub fn new(num: i64, den: i64) -> (r: Option<Rat>)
        ensures
            r matches Some(v) ==> rat_wf(v) && (v.num as int) * den == num * (v.den as int),
            den != 0 && i64::MIN < num && i64::MIN < den ==> r is Some,
            den >= 1 ==> (r is Some <==> q_representable((QVal { n: num as int, d: den as int }))),
            (den >= 1 && r is Some) ==> r->Some_0@ == q_canon(
                (QVal { n: num as int, d: den as int }),
            ),
    {
        if den == 0 {
            return None;
        }
        let n: i128 = num as i128;
        let d: i128 = den as i128;
        if d < 0 {
            match reduce(-n, -d) {
                Some(v) => {
                    proof {
                        lemma_neg_cross(v.num as int, v.den as int, num as int, den as int);
                    }
                    Some(v)
                },
                None => None,
            }
        } else {
            reduce(n, d)
        }
    }

    /// The integer `i` as a rational.
    pub fn from_int(i: i64) -> (r: Rat)
        requires
            i64::MIN < i,
        ensures
            rat_wf(r),
            r@ == q_from_int(i as int),
    {
        Rat { num: i, den: 1 }
    }

    pub fn zero() -> (r: Rat)
        ensures
            rat_wf(r),
            r@ == q_zero(),
    {
        Rat { num: 0, den: 1 }
    }

    pub fn one() -> (r: Rat)
        ensures
            rat_wf(r),
            r@ == q_one(),
    {
        Rat { num: 1, den: 1 }
    }

    /// Exact sum. `None` only when the reduced result is unrepresentable.
    pub fn add(&self, other: &Rat) -> (r: Option<Rat>)
        requires
            rat_wf(*self),
            rat_wf(*other),
        ensures
            r matches Some(v) ==> rat_wf(v) && q_eq(v@, q_add(self@, other@)) && v@ == q_canon(
                q_add(self@, other@),
            ),
            q_in_range(q_add(self@, other@)) ==> r is Some,
            r is Some <==> q_representable(q_add(self@, other@)),
    {
        proof {
            lemma_mul_bound(self.num as int, other.den as int, i64::MAX as int, i64::MAX as int);
            lemma_mul_bound(other.num as int, self.den as int, i64::MAX as int, i64::MAX as int);
            lemma_mul_bound(self.den as int, other.den as int, i64::MAX as int, i64::MAX as int);
            assert((self.den as int) * (other.den as int) >= 1) by (nonlinear_arith)
                requires
                    self.den >= 1,
                    other.den >= 1,
            ;
        }
        let n: i128 = (self.num as i128) * (other.den as i128) + (other.num as i128) * (self.den
            as i128);
        let d: i128 = (self.den as i128) * (other.den as i128);
        reduce(n, d)
    }

    /// Exact difference.
    pub fn sub(&self, other: &Rat) -> (r: Option<Rat>)
        requires
            rat_wf(*self),
            rat_wf(*other),
        ensures
            r matches Some(v) ==> rat_wf(v) && q_eq(v@, q_sub(self@, other@)) && v@ == q_canon(
                q_sub(self@, other@),
            ),
            q_in_range(q_sub(self@, other@)) ==> r is Some,
            r is Some <==> q_representable(q_sub(self@, other@)),
    {
        self.add(&other.neg())
    }

    /// Exact product.
    pub fn mul(&self, other: &Rat) -> (r: Option<Rat>)
        requires
            rat_wf(*self),
            rat_wf(*other),
        ensures
            r matches Some(v) ==> rat_wf(v) && q_eq(v@, q_mul(self@, other@)) && v@ == q_canon(
                q_mul(self@, other@),
            ),
            q_in_range(q_mul(self@, other@)) ==> r is Some,
            r is Some <==> q_representable(q_mul(self@, other@)),
    {
        proof {
            lemma_mul_bound(self.num as int, other.num as int, i64::MAX as int, i64::MAX as int);
            lemma_mul_bound(self.den as int, other.den as int, i64::MAX as int, i64::MAX as int);
            assert((self.den as int) * (other.den as int) >= 1) by (nonlinear_arith)
                requires
                    self.den >= 1,
                    other.den >= 1,
            ;
        }
        let n: i128 = (self.num as i128) * (other.num as i128);
        let d: i128 = (self.den as i128) * (other.den as i128);
        reduce(n, d)
    }

    /// Exact quotient. `None` when `other` is zero or the reduced result is
    /// unrepresentable.
    pub fn div(&self, other: &Rat) -> (r: Option<Rat>)
        requires
            rat_wf(*self),
            rat_wf(*other),
        ensures
            r matches Some(v) ==> rat_wf(v) && other.num != 0 && q_eq(v@, q_div(self@, other@))
                && v@ == q_canon(q_div(self@, other@)),
            other.num == 0 ==> r is None,
            other.num != 0 && q_in_range(q_div(self@, other@)) ==> r is Some,
            other.num != 0 ==> (r is Some <==> q_representable(q_div(self@, other@))),
    {
        if other.num == 0 {
            return None;
        }
        let inv_n: i128 = if other.num >= 0 {
            other.den as i128
        } else {
            -(other.den as i128)
        };
        let inv_d: i128 = if other.num >= 0 {
            other.num as i128
        } else {
            -(other.num as i128)
        };
        proof {
            lemma_mul_bound(self.num as int, inv_n as int, i64::MAX as int, i64::MAX as int);
            lemma_mul_bound(self.den as int, inv_d as int, i64::MAX as int, i64::MAX as int);
            assert((self.den as int) * (inv_d as int) >= 1) by (nonlinear_arith)
                requires
                    self.den >= 1,
                    inv_d >= 1,
            ;
        }
        let n: i128 = (self.num as i128) * inv_n;
        let d: i128 = (self.den as i128) * inv_d;
        reduce(n, d)
    }

    /// Exact negation; always representable.
    pub fn neg(&self) -> (r: Rat)
        requires
            rat_wf(*self),
        ensures
            rat_wf(r),
            r@ == q_neg(self@),
    {
        Rat { num: -self.num, den: self.den }
    }

    /// Exact absolute value; always representable.
    pub fn abs(&self) -> (r: Rat)
        requires
            rat_wf(*self),
        ensures
            rat_wf(r),
            r@ == q_abs(self@),
    {
        if self.num >= 0 {
            *self
        } else {
            Rat { num: -self.num, den: self.den }
        }
    }

    /// `self <= other` as rationals.
    pub fn le(&self, other: &Rat) -> (r: bool)
        requires
            rat_wf(*self),
            rat_wf(*other),
        ensures
            r == q_le(self@, other@),
    {
        proof {
            lemma_mul_bound(self.num as int, other.den as int, i64::MAX as int, i64::MAX as int);
            lemma_mul_bound(other.num as int, self.den as int, i64::MAX as int, i64::MAX as int);
        }
        (self.num as i128) * (other.den as i128) <= (other.num as i128) * (self.den as i128)
    }

    /// `self < other` as rationals.
    pub fn lt(&self, other: &Rat) -> (r: bool)
        requires
            rat_wf(*self),
            rat_wf(*other),
        ensures
            r == q_lt(self@, other@),
    {
        proof {
            lemma_mul_bound(self.num as int, other.den as int, i64::MAX as int, i64::MAX as int);
            lemma_mul_bound(other.num as int, self.den as int, i64::MAX as int, i64::MAX as int);
        }
        (self.num as i128) * (other.den as i128) < (other.num as i128) * (self.den as i128)
    }

    /// `self == other` as rationals (independent of representation).
    pub fn eq_rat(&self, other: &Rat) -> (r: bool)
        requires
            rat_wf(*self),
            rat_wf(*other),
        ensures
            r == q_eq(self@, other@),
    {
        proof {
            lemma_mul_bound(self.num as int, other.den as int, i64::MAX as int, i64::MAX as int);
            lemma_mul_bound(other.num as int, self.den as int, i64::MAX as int, i64::MAX as int);
        }
        (self.num as i128) * (other.den as i128) == (other.num as i128) * (self.den as i128)
    }

    /// Whether the value is exactly zero.
    pub fn is_zero(&self) -> (r: bool)
        requires
            rat_wf(*self),
        ensures
            r == q_is_zero(self@),
    {
        self.num == 0
    }
}

} // verus!
