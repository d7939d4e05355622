//! Dense matrix primitives over exact rationals: multiply, transpose,
//! identity and (in this module's second half) Gauss-Jordan inversion.
//!
//! A matrix is a rectangular `Vec` of rows of [`Rat`]. Its specification
//! value is a `Seq<Seq<QVal>>`; the contracts state results pointwise up to
//! rational equality ([`q_eq`]), and exactly (structurally) where the
//! operation only moves entries around.

use vstd::prelude::*;
use crate::rat::{
    QVal, Rat, q_wf, q_eq, q_zero, q_one, q_add, q_mul, q_sub, q_div, q_representable, rat_wf,
    lemma_q_eq_trans,
};
use crate::qseq::{
    q_seq_wf, q_seq_eq, q_dot, q_dot_prefix, q_zip_mul, q_dot_chain, q_dot_chain_ok,
    lemma_q_dot_prefix_zero, lemma_q_dot_prefix_full, lemma_q_dot_prefix_wf,
    lemma_q_dot_accumulate, lemma_q_dot_chain_ok_prefix, lemma_q_zip_mul_wf, lemma_q_sum_wf,
};

verus! {

/// How an operation failed. Every failure of the numeric pipeline is one of
/// these; no function in this crate panics.
#[derive(Clone, Copy, Debug, PartialEq, Eq, Structural)]
pub enum MatError {
    /// An operand had zero rows or zero columns.
    EmptyInput,
    /// Operand dimensions are incompatible (a non-square matrix handed to
    /// inversion falls under this as well).
    DimMismatch,
    /// Inversion found no pivot above the configured threshold.
    NearSingular,
    /// Too little source data to compute the quantity (a price series
    /// shorter than two points, for instance).
    MissingData,
    /// An exact rational left the representable range.
    Overflow,
}

// ---------------------------------------------------------------------------
// Specification-level matrices.
// ---------------------------------------------------------------------------

pub open spec fn mat_cols(m: Seq<Seq<QVal>>) -> int {
    if m.len() == 0 {
        0
    } else {
        m[0].len() as int
    }
}

pub open spec fn mat_rect(m: Seq<Seq<QVal>>) -> bool {
    forall|i: int| 0 <= i < m.len() ==> (#[trigger] m[i]).len() == mat_cols(m)
}

pub open spec fn mat_entries_wf(m: Seq<Seq<QVal>>) -> bool {
    forall|i: int, j: int|
        0 <= i < m.len() && 0 <= j < m[i].len() ==> q_wf(#[trigger] m[i][j])
}

pub open spec fn mat_wf(m: Seq<Seq<QVal>>) -> bool {
    mat_rect(m) && mat_entries_wf(m)
}

/// Pointwise rational equality of two matrices (same shape, equal entries).
pub open spec fn mat_eq(a: Seq<Seq<QVal>>, b: Seq<Seq<QVal>>) -> bool {
    &&& a.len() == b.len()
    &&& forall|i: int| 0 <= i < a.len() ==> (#[trigger] a[i]).len() == b[i].len()
    &&& forall|i: int, j: int|
        0 <= i < a.len() && 0 <= j < a[i].len() ==> q_eq(#[trigger] a[i][j], b[i][j])
}

/// Column `j` of `m` as a sequence.
pub open spec fn mat_col(m: Seq<Seq<QVal>>, j: int) -> Seq<QVal> {
    Seq::new(m.len(), |i: int| m[i][j])
}

/// The matrix product: entry `(i, j)` is the inner product of row `i` of
/// `a` with column `j` of `b`.
pub open spec fn mat_mul_spec(a: Seq<Seq<QVal>>, b: Seq<Seq<QVal>>) -> Seq<Seq<QVal>> {
    Seq::new(a.len(), |i: int| Seq::new(mat_cols(b) as nat, |j: int| q_dot(a[i], mat_col(b, j))))
}

pub open spec fn mat_transpose_spec(m: Seq<Seq<QVal>>) -> Seq<Seq<QVal>> {
    Seq::new(mat_cols(m) as nat, |j: int| Seq::new(m.len(), |i: int| m[i][j]))
}

pub open spec fn mat_identity_spec(n: int) -> Seq<Seq<QVal>> {
    Seq::new(
        n as nat,
        |i: int|
            Seq::new(
                n as nat,
                |j: int|
                    if i == j {
                        q_one()
                    } else {
                        q_zero()
                    },
            ),
    )
}

/// Every entry multiplied by the scalar `c`.
pub open spec fn mat_scale_spec(c: QVal, m: Seq<Seq<QVal>>) -> Seq<Seq<QVal>> {
    Seq::new(m.len(), |i: int| Seq::new(m[i].len(), |j: int| q_mul(c, m[i][j])))
}

/// Entrywise sum of two same-shaped matrices.
pub open spec fn mat_add_spec(a: Seq<Seq<QVal>>, b: Seq<Seq<QVal>>) -> Seq<Seq<QVal>> {
    Seq::new(a.len(), |i: int| Seq::new(a[i].len(), |j: int| q_add(a[i][j], b[i][j])))
}

/// The matrix-vector product `m * v`.
pub open spec fn mat_vec_spec(m: Seq<Seq<QVal>>, v: Seq<QVal>) -> Seq<QVal> {
    Seq::new(m.len(), |i: int| q_dot(m[i], v))
}

/// The specification values of a sequence of executable rationals.
pub open spec fn rats_view(s: Seq<Rat>) -> Seq<QVal> {
    Seq::new(s.len(), |i: int| s[i]@)
}

pub open spec fn rat_seq_wf(s: Seq<Rat>) -> bool {
    forall|i: int| 0 <= i < s.len() ==> rat_wf(#[trigger] s[i])
}

// ---------------------------------------------------------------------------
// The executable matrix.
// ---------------------------------------------------------------------------

/// The specification value of row storage: one `Seq<QVal>` per row.
pub open spec fn mat_view_of(data: Seq<Vec<Rat>>) -> Seq<Seq<QVal>> {
    Seq::new(data.len(), |i: int| rats_view(data[i]@))
}

/// Row storage is rectangular and every entry is a well-formed rational.
pub open spec fn rows_wf(data: Seq<Vec<Rat>>) -> bool {
    &&& forall|i: int|
        0 <= i < data.len() ==> (#[trigger] data[i])@.len() == mat_view_of(data)[0].len()
    &&& forall|i: int, j: int|
        0 <= i < data.len() && 0 <= j < data[i]@.len() ==> rat_wf(#[trigger] data[i]@[j])
}

/// A dense matrix of exact rationals; dimensions are fixed at construction.
#[derive(Clone, Debug)]
pub struct Matrix {
    pub data: Vec<Vec<Rat>>,
}

impl View for Matrix {
    type V = Seq<Seq<QVal>>;

    open spec fn view(&self) -> Seq<Seq<QVal>> {
        mat_view_of(self.data@)
    }
}

impl Matrix {
    /// Every row has the length of the first and every entry is well-formed.
    pub open spec fn wf(self) -> bool {
        rows_wf(self.data@)
    }

    pub proof fn lemma_wf_view(self)
        requires
            self.wf(),
        ensures
            mat_wf(self@),
            self@.len() == self.data@.len(),
    {
        assert forall|i: int| 0 <= i < self@.len() implies (#[trigger] self@[i]).len()
            == mat_cols(self@) by {
            assert(self@[i].len() == self.data@[i]@.len());
        }
    }

    pub fn rows(&self) -> (r: usize)
        ensures
            r as int == self@.len(),
    {
        self.data.len()
    }

    pub fn cols(&self) -> (r: usize)
        ensures
            r as int == mat_cols(self@),
    {
        if self.data.len() == 0 {
            0
        } else {
            self.data[0].len()
        }
    }

    /// The entry at row `i`, column `j`.
    pub fn get(&self, i: usize, j: usize) -> (r: Rat)
        requires
            self.wf(),
            i < self@.len(),
            j < mat_cols(self@),
        ensures
            rat_wf(r),
            r@ == self@[i as int][j as int],
    {
        proof {
            self.lemma_wf_view();
        }
        self.data[i][j]
    }

    /// Wrap row storage as a matrix, verifying shape and well-formedness.
    pub fn from_rows(data: Vec<Vec<Rat>>) -> (r: Option<Matrix>)
        ensures
            r matches Some(m) ==> m.wf() && m@ == mat_view_of(data@),
            rows_wf(data@) ==> r is Some,
    {
        let n = data.len();
        let c0 = if n == 0 {
            0
        } else {
            data[0].len()
        };
        let mut i: usize = 0;
        while i < n
            invariant
                i <= n,
                n == data@.len(),
                n > 0 ==> c0 as int == data@[0]@.len(),
                forall|i2: int| 0 <= i2 < i as int ==> (#[trigger] data@[i2])@.len() == c0 as int,
                forall|i2: int, j: int|
                    0 <= i2 < i as int && 0 <= j < data@[i2]@.len() ==> rat_wf(
                        #[trigger] data@[i2]@[j],
                    ),
            decreases n - i,
        {
            if data[i].len() != c0 {
                return None;
            }
            let mut j: usize = 0;
            while j < c0
                invariant
                    i < n,
                    j <= c0,
                    n == data@.len(),
                    data@[i as int]@.len() == c0 as int,
                    forall|j2: int| 0 <= j2 < j as int ==> rat_wf(#[trigger] data@[i as int]@[j2]),
                decreases c0 - j,
            {
                let x = data[i][j];
                if !(x.den >= 1 && x.num > i64::MIN) {
                    return None;
                }
                j += 1;
            }
            i += 1;
        }
        proof {
            if n > 0 {
                assert(mat_view_of(data@)[0].len() == data@[0]@.len());
            }
        }
        Some(Matrix { data })
    }

    /// The `n x n` identity matrix.
    pub fn identity(n: usize) -> (m: Matrix)
        ensures
            m.wf(),
            m@ == mat_identity_spec(n as int),
            m@.len() == n as int,
    {
        let mut data: Vec<Vec<Rat>> = Vec::new();
        let mut i: usize = 0;
        while i < n
            invariant
                i <= n,
                data@.len() == i as int,
                forall|i2: int| 0 <= i2 < i as int ==> (#[trigger] data@[i2])@.len() == n as int,
                forall|i2: int, j: int|
                    0 <= i2 < i as int && 0 <= j < n as int ==> rat_wf(#[trigger] data@[i2]@[j])
                        && data@[i2]@[j]@ == (if i2 == j {
                        q_one()
                    } else {
                        q_zero()
                    }),
            decreases n - i,
        {
            let mut row: Vec<Rat> = Vec::new();
            let mut j: usize = 0;
            while j < n
                invariant
                    i < n,
                    j <= n,
                    row@.len() == j as int,
                    forall|j2: int|
                        0 <= j2 < j as int ==> rat_wf(#[trigger] row@[j2]) && row@[j2]@ == (if i
                            as int == j2 {
                            q_one()
                        } else {
                            q_zero()
                        }),
                decreases n - j,
            {
                if i == j {
                    row.push(Rat::one());
                } else {
                    row.push(Rat::zero());
                }
                j += 1;
            }
            data.push(row);
            i += 1;
        }
        let m = Matrix { data };
        proof {
            assert forall|i2: int| 0 <= i2 < n as int implies m@[i2] =~= mat_identity_spec(
                n as int,
            )[i2] by {}
            assert(m@ =~~= mat_identity_spec(n as int));
        }
        m
    }

    /// The transpose. Fails exactly on an empty matrix (no rows or no
    /// columns); otherwise the result is the exact transpose.
    pub fn transpose(&self) -> (r: Result<Matrix, MatError>)
        requires
            self.wf(),
        ensures
            r matches Ok(t) ==> t.wf() && t@ == mat_transpose_spec(self@),
            (self@.len() == 0 || mat_cols(self@) == 0) <==> r == Err::<Matrix, MatError>(
                MatError::EmptyInput,
            ),
            (self@.len() > 0 && mat_cols(self@) > 0) ==> r is Ok,
    {
        proof {
            self.lemma_wf_view();
        }
        let n = self.rows();
        let c = self.cols();
        if n == 0 || c == 0 {
            return Err(MatError::EmptyInput);
        }
        let mut data: Vec<Vec<Rat>> = Vec::new();
        let mut j: usize = 0;
        while j < c
            invariant
                j <= c,
                self.wf(),
                n as int == self@.len(),
                c as int == mat_cols(self@),
                data@.len() == j as int,
                forall|j2: int| 0 <= j2 < j as int ==> (#[trigger] data@[j2])@.len() == n as int,
                forall|j2: int, i: int|
                    0 <= j2 < j as int && 0 <= i < n as int ==> rat_wf(#[trigger] data@[j2]@[i])
                        && data@[j2]@[i]@ == self@[i][j2],
            decreases c - j,
        {
            let mut row: Vec<Rat> = Vec::new();
            let mut i: usize = 0;
            while i < n
                invariant
                    i <= n,
                    j < c,
                    self.wf(),
                    n as int == self@.len(),
                    c as int == mat_cols(self@),
                    row@.len() == i as int,
                    forall|i2: int|
                        0 <= i2 < i as int ==> rat_wf(#[trigger] row@[i2]) && row@[i2]@
                            == self@[i2][j as int],
                decreases n - i,
            {
                row.push(self.get(i, j));
                i += 1;
            }
            data.push(row);
            j += 1;
        }
        let t = Matrix { data };
        proof {
            assert forall|j2: int| 0 <= j2 < c as int implies t@[j2] =~= mat_transpose_spec(
                self@,
            )[j2] by {}
            assert(t@ =~~= mat_transpose_spec(self@));
        }
        Ok(t)
    }

    /// Every entry multiplied by `c`. Succeeds if and only if every scaled
    /// entry is representable; the only failure is overflow.
    pub fn scale(&self, c: &Rat) -> (r: Result<Matrix, MatError>)
        requires
            self.wf(),
            rat_wf(*c),
        ensures
            r matches Ok(s) ==> s.wf() && mat_eq(s@, mat_scale_spec(c@, self@)),
            r is Err ==> r == Err::<Matrix, MatError>(MatError::Overflow),
            r is Ok <==> forall|i: int, j: int|
                0 <= i < self@.len() && 0 <= j < self@[i].len() ==> q_representable(
                    q_mul(c@, #[trigger] self@[i][j]),
                ),
    {
        proof {
            self.lemma_wf_view();
        }
        let n = self.rows();
        let mut data: Vec<Vec<Rat>> = Vec::new();
        let mut i: usize = 0;
        while i < n
            invariant
                i <= n,
                self.wf(),
                rat_wf(*c),
                n as int == self@.len(),
                data@.len() == i as int,
                forall|i2: int|
                    0 <= i2 < i as int ==> (#[trigger] data@[i2])@.len() == self@[i2].len(),
                forall|i2: int, j: int|
                    0 <= i2 < i as int && 0 <= j < data@[i2]@.len() ==> rat_wf(
                        #[trigger] data@[i2]@[j],
                    ) && q_eq(data@[i2]@[j]@, q_mul(c@, self@[i2][j])),
                forall|i2: int, j: int|
                    0 <= i2 < i as int && 0 <= j < self@[i2].len() ==> q_representable(
                        q_mul(c@, #[trigger] self@[i2][j]),
                    ),
            decreases n - i,
        {
            let cols_i = self.data[i].len();
            let mut row: Vec<Rat> = Vec::new();
            let mut j: usize = 0;
            while j < cols_i
                invariant
                    i < n,
                    j <= cols_i,
                    self.wf(),
                    rat_wf(*c),
                    n as int == self@.len(),
                    cols_i as int == self@[i as int].len(),
                    row@.len() == j as int,
                    forall|j2: int|
                        0 <= j2 < j as int ==> rat_wf(#[trigger] row@[j2]) && q_eq(
                            row@[j2]@,
                            q_mul(c@, self@[i as int][j2]),
                        ),
                    forall|i2: int, j2: int|
                        0 <= i2 < i as int && 0 <= j2 < self@[i2].len() ==> q_representable(
                            q_mul(c@, #[trigger] self@[i2][j2]),
                        ),
                    forall|j2: int|
                        0 <= j2 < j as int ==> q_representable(
                            q_mul(c@, #[trigger] self@[i as int][j2]),
                        ),
                decreases cols_i - j,
            {
                proof {
                    self.lemma_wf_view();
                }
                let x = self.data[i][j];
                proof {
                    assert(x@ == self@[i as int][j as int]);
                }
                match c.mul(&x) {
                    Some(y) => row.push(y),
                    None => {
                        proof {
                            assert(!q_representable(q_mul(c@, self@[i as int][j as int])));
                        }
                        return Err(MatError::Overflow);
                    },
                }
                j += 1;
            }
            data.push(row);
            i += 1;
        }
        let s = Matrix { data };
        Ok(s)
    }

    /// Entrywise sum. Fails on a shape mismatch, else only on overflow.
    pub fn add_mat(&self, other: &Matrix) -> (r: Result<Matrix, MatError>)
        requires
            self.wf(),
            other.wf(),
        ensures
            r matches Ok(s) ==> s.wf() && mat_eq(s@, mat_add_spec(self@, other@)) && self@.len()
                == other@.len() && mat_cols(self@) == mat_cols(other@),
            (self@.len() != other@.len() || mat_cols(self@) != mat_cols(other@)) <==> r == Err::<
                Matrix,
                MatError,
            >(MatError::DimMismatch),
            r is Err ==> r == Err::<Matrix, MatError>(MatError::DimMismatch) || r == Err::<
                Matrix,
                MatError,
            >(MatError::Overflow),
            (self@.len() == other@.len() && mat_cols(self@) == mat_cols(other@)) ==> (r is Ok
                <==> forall|i: int, j: int|
                0 <= i < self@.len() && 0 <= j < self@[i].len() ==> q_representable(
                    q_add(#[trigger] self@[i][j], other@[i][j]),
                )),
    {
        proof {
            self.lemma_wf_view();
            other.lemma_wf_view();
        }
        let n = self.rows();
        if other.rows() != n || self.cols() != other.cols() {
            return Err(MatError::DimMismatch);
        }
        let mut data: Vec<Vec<Rat>> = Vec::new();
        let mut i: usize = 0;
        while i < n
            invariant
                i <= n,
                self.wf(),
                other.wf(),
                n as int == self@.len(),
                self@.len() == other@.len(),
                mat_cols(self@) == mat_cols(other@),
                data@.len() == i as int,
                forall|i2: int|
                    0 <= i2 < i as int ==> (#[trigger] data@[i2])@.len() == self@[i2].len(),
                forall|i2: int, j: int|
                    0 <= i2 < i as int && 0 <= j < data@[i2]@.len() ==> rat_wf(
                        #[trigger] data@[i2]@[j],
                    ) && q_eq(data@[i2]@[j]@, q_add(self@[i2][j], other@[i2][j])),
                forall|i2: int, j: int|
                    0 <= i2 < i as int && 0 <= j < self@[i2].len() ==> q_representable(
                        q_add(#[trigger] self@[i2][j], other@[i2][j]),
                    ),
            decreases n - i,
        {
            proof {
                self.lemma_wf_view();
                other.lemma_wf_view();
            }
            let cols_i = self.data[i].len();
            let mut row: Vec<Rat> = Vec::new();
            let mut j: usize = 0;
            while j < cols_i
                invariant
                    i < n,
                    j <= cols_i,
                    self.wf(),
                    other.wf(),
                    n as int == self@.len(),
                    self@.len() == other@.len(),
                    mat_cols(self@) == mat_cols(other@),
                    cols_i as int == self@[i as int].len(),
                    cols_i as int == other@[i as int].len(),
                    row@.len() == j as int,
                    forall|j2: int|
                        0 <= j2 < j as int ==> rat_wf(#[trigger] row@[j2]) && q_eq(
                            row@[j2]@,
                            q_add(self@[i as int][j2], other@[i as int][j2]),
                        ),
                    forall|i2: int, j2: int|
                        0 <= i2 < i as int && 0 <= j2 < self@[i2].len() ==> q_representable(
                            q_add(#[trigger] self@[i2][j2], other@[i2][j2]),
                        ),
                    forall|j2: int|
                        0 <= j2 < j as int ==> q_representable(
                            q_add(#[trigger] self@[i as int][j2], other@[i as int][j2]),
                        ),
                decreases cols_i - j,
            {
                proof {
                    self.lemma_wf_view();
                    other.lemma_wf_view();
                }
                let x = self.data[i][j];
                let y = other.data[i][j];
                proof {
                    assert(x@ == self@[i as int][j as int]);
                    assert(y@ == other@[i as int][j as int]);
                }
                match x.add(&y) {
                    Some(z) => row.push(z),
                    None => {
                        proof {
                            assert(!q_representable(q_add(
                                self@[i as int][j as int],
                                other@[i as int][j as int],
                            )));
                        }
                        return Err(MatError::Overflow);
                    },
                }
                j += 1;
            }
            data.push(row);
            i += 1;
        }
        let s = Matrix { data };
        Ok(s)
    }

    /// The matrix product `self * other`. Fails exactly on empty operands
    /// or a dimension mismatch; otherwise it succeeds unless the exact
    /// representation overflows, and the result equals the product.
    pub fn multiply(&self, other: &Matrix) -> (r: Result<Matrix, MatError>)
        requires
            self.wf(),
            other.wf(),
        ensures
            r matches Ok(m) ==> m.wf() && mat_eq(m@, mat_mul_spec(self@, other@)) && mat_cols(
                self@,
            ) == other@.len(),
            (self@.len() == 0 || other@.len() == 0 || mat_cols(self@) == 0 || mat_cols(other@)
                == 0) ==> r == Err::<Matrix, MatError>(MatError::EmptyInput),
            (self@.len() > 0 && other@.len() > 0 && mat_cols(self@) > 0 && mat_cols(other@) > 0
                && mat_cols(self@) != other@.len()) ==> r == Err::<Matrix, MatError>(
                MatError::DimMismatch,
            ),
            r is Err ==> r == Err::<Matrix, MatError>(MatError::EmptyInput) || r == Err::<
                Matrix,
                MatError,
            >(MatError::DimMismatch) || r == Err::<Matrix, MatError>(MatError::Overflow),
            r == Err::<Matrix, MatError>(MatError::EmptyInput) ==> (self@.len() == 0 || other@.len()
                == 0 || mat_cols(self@) == 0 || mat_cols(other@) == 0),
            r == Err::<Matrix, MatError>(MatError::DimMismatch) ==> mat_cols(self@) != other@.len(),
            (self@.len() > 0 && other@.len() > 0 && mat_cols(self@) > 0 && mat_cols(other@) > 0
                && mat_cols(self@) == other@.len()) ==> (r is Ok <==> forall|i: int, j: int|
                0 <= i < self@.len() && 0 <= j < mat_cols(other@) ==> #[trigger] q_dot_chain_ok(
                    self@[i],
                    mat_col(other@, j),
                    other@.len() as int,
                )),
    {
        proof {
            self.lemma_wf_view();
            other.lemma_wf_view();
        }
        let n = self.rows();
        let kk = self.cols();
        let bn = other.rows();
        let cc = other.cols();
        if n == 0 || bn == 0 || kk == 0 || cc == 0 {
            return Err(MatError::EmptyInput);
        }
        if kk != bn {
            return Err(MatError::DimMismatch);
        }
        let mut data: Vec<Vec<Rat>> = Vec::new();
        let mut i: usize = 0;
        while i < n
            invariant
                i <= n,
                self.wf(),
                other.wf(),
                n as int == self@.len(),
                kk as int == mat_cols(self@),
                kk as int == other@.len(),
                cc as int == mat_cols(other@),
                data@.len() == i as int,
                forall|i2: int| 0 <= i2 < i as int ==> (#[trigger] data@[i2])@.len() == cc as int,
                forall|i2: int, j: int|
                    0 <= i2 < i as int && 0 <= j < cc as int ==> rat_wf(#[trigger] data@[i2]@[j])
                        && q_eq(data@[i2]@[j]@, q_dot(self@[i2], mat_col(other@, j))),
                forall|i2: int, j: int|
                    0 <= i2 < i as int && 0 <= j < cc as int ==> #[trigger] q_dot_chain_ok(
                        self@[i2],
                        mat_col(other@, j),
                        kk as int,
                    ),
            decreases n - i,
        {
            let mut row: Vec<Rat> = Vec::new();
            let mut j: usize = 0;
            while j < cc
                invariant
                    i < n,
                    j <= cc,
                    self.wf(),
                    other.wf(),
                    n as int == self@.len(),
                    kk as int == mat_cols(self@),
                    kk as int == other@.len(),
                    cc as int == mat_cols(other@),
                    row@.len() == j as int,
                    forall|j2: int|
                        0 <= j2 < j as int ==> rat_wf(#[trigger] row@[j2]) && q_eq(
                            row@[j2]@,
                            q_dot(self@[i as int], mat_col(other@, j2)),
                        ),
                    forall|i2: int, j2: int|
                        0 <= i2 < i as int && 0 <= j2 < cc as int ==> #[trigger] q_dot_chain_ok(
                            self@[i2],
                            mat_col(other@, j2),
                            kk as int,
                        ),
                    forall|j2: int|
                        0 <= j2 < j as int ==> #[trigger] q_dot_chain_ok(
                            self@[i as int],
                            mat_col(other@, j2),
                            kk as int,
                        ),
                decreases cc - j,
            {
                let ghost rrow = self@[i as int];
                let ghost ccol = mat_col(other@, j as int);
                proof {
                    self.lemma_wf_view();
                    other.lemma_wf_view();
                    assert(q_seq_wf(rrow));
                    assert forall|t: int| 0 <= t < ccol.len() implies q_wf(#[trigger] ccol[t]) by {
                        assert(ccol[t] == other@[t][j as int]);
                    }
                    lemma_q_dot_prefix_zero(rrow, ccol);
                }
                let mut acc = Rat::zero();
                let mut k: usize = 0;
                while k < kk
                    invariant
                        i < n,
                        j < cc,
                        k <= kk,
                        self.wf(),
                        other.wf(),
                        n as int == self@.len(),
                        kk as int == mat_cols(self@),
                        kk as int == other@.len(),
                        cc as int == mat_cols(other@),
                        rrow == self@[i as int],
                        ccol == mat_col(other@, j as int),
                        q_seq_wf(rrow),
                        q_seq_wf(ccol),
                        rrow.len() == kk as int,
                        ccol.len() == kk as int,
                        rat_wf(acc),
                        q_eq(acc@, q_dot_prefix(rrow, ccol, k as int)),
                        acc@ == q_dot_chain(rrow, ccol, k as int),
                        q_dot_chain_ok(rrow, ccol, k as int),
                    decreases kk - k,
                {
                    proof {
                        self.lemma_wf_view();
                        other.lemma_wf_view();
                    }
                    let a_ik = self.data[i][k];
                    let b_kj = other.data[k][j];
                    proof {
                        assert(a_ik@ == rrow[k as int]);
                        assert(b_kj@ == ccol[k as int]);
                    }
                    let p = match a_ik.mul(&b_kj) {
                        Some(p) => p,
                        None => {
                            proof {
                                assert(!q_dot_chain_ok(rrow, ccol, k as int + 1));
                                if q_dot_chain_ok(rrow, ccol, kk as int) {
                                    lemma_q_dot_chain_ok_prefix(rrow, ccol, k as int + 1, kk as int);
                                }
                            }
                            return Err(MatError::Overflow);
                        },
                    };
                    let next = match acc.add(&p) {
                        Some(v) => v,
                        None => {
                            proof {
                                assert(!q_dot_chain_ok(rrow, ccol, k as int + 1));
                                if q_dot_chain_ok(rrow, ccol, kk as int) {
                                    lemma_q_dot_chain_ok_prefix(rrow, ccol, k as int + 1, kk as int);
                                }
                            }
                            return Err(MatError::Overflow);
                        },
                    };
                    proof {
                        lemma_q_dot_accumulate(acc@, next@, p@, rrow, ccol, k as int);
                        assert(next@ == q_dot_chain(rrow, ccol, k as int + 1));
                        assert(q_dot_chain_ok(rrow, ccol, k as int + 1));
                    }
                    acc = next;
                    k += 1;
                }
                proof {
                    assert(rrow.take(kk as int) =~= rrow);
                    lemma_q_dot_prefix_full(rrow, ccol);
                }
                row.push(acc);
                j += 1;
            }
            data.push(row);
            i += 1;
        }
        let m = Matrix { data };
        proof {
            assert(mat_eq(m@, mat_mul_spec(self@, other@)));
        }
        Ok(m)
    }

    /// The matrix-vector product `self * v`. Fails exactly on a length
    /// mismatch; otherwise it succeeds unless the representation overflows.
    pub fn mat_vec_mul(&self, v: &Vec<Rat>) -> (r: Result<Vec<Rat>, MatError>)
        requires
            self.wf(),
            rat_seq_wf(v@),
        ensures
            r matches Ok(w) ==> rat_seq_wf(w@) && q_seq_eq(
                rats_view(w@),
                mat_vec_spec(self@, rats_view(v@)),
            ),
            mat_cols(self@) != v@.len() <==> r == Err::<Vec<Rat>, MatError>(MatError::DimMismatch),
            r is Err ==> r == Err::<Vec<Rat>, MatError>(MatError::DimMismatch) || r == Err::<
                Vec<Rat>,
                MatError,
            >(MatError::Overflow),
            mat_cols(self@) == v@.len() ==> (r is Ok <==> forall|i: int|
                0 <= i < self@.len() ==> #[trigger] q_dot_chain_ok(
                    self@[i],
                    rats_view(v@),
                    v@.len() as int,
                )),
    {
        proof {
            self.lemma_wf_view();
        }
        let n = self.rows();
        let kk = self.cols();
        if kk != v.len() {
            return Err(MatError::DimMismatch);
        }
        let ghost vv = rats_view(v@);
        proof {
            assert(q_seq_wf(vv));
        }
        let mut out: Vec<Rat> = Vec::new();
        let mut i: usize = 0;
        while i < n
            invariant
                i <= n,
                self.wf(),
                rat_seq_wf(v@),
                n as int == self@.len(),
                kk as int == mat_cols(self@),
                kk as int == v@.len(),
                vv == rats_view(v@),
                q_seq_wf(vv),
                vv.len() == kk as int,
                out@.len() == i as int,
                forall|i2: int|
                    0 <= i2 < i as int ==> rat_wf(#[trigger] out@[i2]) && q_eq(
                        out@[i2]@,
                        q_dot(self@[i2], vv),
                    ),
                forall|i2: int|
                    0 <= i2 < i as int ==> #[trigger] q_dot_chain_ok(self@[i2], vv, kk as int),
            decreases n - i,
        {
            let ghost rrow = self@[i as int];
            proof {
                self.lemma_wf_view();
                assert(q_seq_wf(rrow));
                lemma_q_dot_prefix_zero(rrow, vv);
            }
            let mut acc = Rat::zero();
            let mut k: usize = 0;
            while k < kk
                invariant
                    i < n,
                    k <= kk,
                    self.wf(),
                    rat_seq_wf(v@),
                    n as int == self@.len(),
                    kk as int == mat_cols(self@),
                    kk as int == v@.len(),
                    vv == rats_view(v@),
                    q_seq_wf(vv),
                    vv.len() == kk as int,
                    rrow == self@[i as int],
                    q_seq_wf(rrow),
                    rrow.len() == kk as int,
                    rat_wf(acc),
                    q_eq(acc@, q_dot_prefix(rrow, vv, k as int)),
                    acc@ == q_dot_chain(rrow, vv, k as int),
                    q_dot_chain_ok(rrow, vv, k as int),
                    forall|i2: int|
                        0 <= i2 < i as int ==> #[trigger] q_dot_chain_ok(self@[i2], vv, kk as int),
                decreases kk - k,
            {
                proof {
                    self.lemma_wf_view();
                }
                let a_ik = self.data[i][k];
                let x_k = v[k];
                proof {
                    assert(a_ik@ == rrow[k as int]);
                    assert(x_k@ == vv[k as int]);
                }
                let p = match a_ik.mul(&x_k) {
                    Some(p) => p,
                    None => {
                        proof {
                            assert(!q_dot_chain_ok(rrow, vv, k as int + 1));
                            if q_dot_chain_ok(rrow, vv, kk as int) {
                                lemma_q_dot_chain_ok_prefix(rrow, vv, k as int + 1, kk as int);
                            }
                        }
                        return Err(MatError::Overflow);
                    },
                };
                let next = match acc.add(&p) {
                    Some(vsum) => vsum,
                    None => {
                        proof {
                            assert(!q_dot_chain_ok(rrow, vv, k as int + 1));
                            if q_dot_chain_ok(rrow, vv, kk as int) {
                                lemma_q_dot_chain_ok_prefix(rrow, vv, k as int + 1, kk as int);
                            }
                        }
                        return Err(MatError::Overflow);
                    },
                };
                proof {
                    lemma_q_dot_accumulate(acc@, next@, p@, rrow, vv, k as int);
                    assert(next@ == q_dot_chain(rrow, vv, k as int + 1));
                    assert(q_dot_chain_ok(rrow, vv, k as int + 1));
                }
                acc = next;
                k += 1;
            }
            proof {
                assert(rrow.take(kk as int) =~= rrow);
                lemma_q_dot_prefix_full(rrow, vv);
            }
            out.push(acc);
            i += 1;
        }
        Ok(out)
    }
}

// ---------------------------------------------------------------------------
// Lemmas about the matrix specifications.
// ---------------------------------------------------------------------------

/// Pointwise matrix equality is transitive on well-formed entries.
pub proof fn lemma_mat_eq_trans(a: Seq<Seq<QVal>>, b: Seq<Seq<QVal>>, c: Seq<Seq<QVal>>)
    requires
        mat_entries_wf(a),
        mat_entries_wf(b),
        mat_entries_wf(c),
        mat_eq(a, b),
        mat_eq(b, c),
    ensures
        mat_eq(a, c),
{
    assert forall|i: int, j: int| 0 <= i < a.len() && 0 <= j < a[i].len() implies q_eq(
        #[trigger] a[i][j],
        c[i][j],
    ) by {
        lemma_q_eq_trans(a[i][j], b[i][j], c[i][j]);
    }
}

pub proof fn lemma_identity_spec_wf(n: int)
    requires
        n >= 0,
    ensures
        mat_wf(mat_identity_spec(n)),
{
    assert forall|i: int, j: int|
        0 <= i < mat_identity_spec(n).len() && 0 <= j < mat_identity_spec(n)[i].len() implies q_wf(
        #[trigger] mat_identity_spec(n)[i][j],
    ) by {
        assert(mat_identity_spec(n)[i][j] == (if i == j {
            q_one()
        } else {
            q_zero()
        }));
    }
}

/// The product of well-formed, compatibly sized matrices is well-formed.
pub proof fn lemma_mat_mul_spec_wf(a: Seq<Seq<QVal>>, b: Seq<Seq<QVal>>)
    requires
        mat_wf(a),
        mat_wf(b),
        mat_cols(a) == b.len(),
    ensures
        mat_wf(mat_mul_spec(a, b)),
        mat_mul_spec(a, b).len() == a.len(),
        a.len() > 0 ==> mat_cols(mat_mul_spec(a, b)) == mat_cols(b),
{
    let m = mat_mul_spec(a, b);
    assert forall|i: int, j: int| 0 <= i < m.len() && 0 <= j < m[i].len() implies q_wf(
        #[trigger] m[i][j],
    ) by {
        assert(m[i][j] == q_dot(a[i], mat_col(b, j)));
        assert(q_seq_wf(a[i]));
        assert forall|t: int| 0 <= t < mat_col(b, j).len() implies q_wf(
            #[trigger] mat_col(b, j)[t],
        ) by {
            assert(mat_col(b, j)[t] == b[t][j]);
        }
        lemma_q_zip_mul_wf(a[i], mat_col(b, j));
        lemma_q_sum_wf(q_zip_mul(a[i], mat_col(b, j)));
    }
}

pub proof fn lemma_rats_view_wf(s: Seq<Rat>)
    requires
        rat_seq_wf(s),
    ensures
        q_seq_wf(rats_view(s)),
        rats_view(s).len() == s.len(),
{
}

pub proof fn lemma_mat_scale_spec_wf(c: QVal, m: Seq<Seq<QVal>>)
    requires
        q_wf(c),
        mat_wf(m),
    ensures
        mat_wf(mat_scale_spec(c, m)),
        mat_scale_spec(c, m).len() == m.len(),
        mat_cols(mat_scale_spec(c, m)) == mat_cols(m),
{
    let s = mat_scale_spec(c, m);
    assert forall|i: int, j: int| 0 <= i < s.len() && 0 <= j < s[i].len() implies q_wf(
        #[trigger] s[i][j],
    ) by {
        crate::rat::lemma_q_wf_mul(c, m[i][j]);
    }
    if m.len() > 0 {
        assert(s[0].len() == m[0].len());
    }
}

pub proof fn lemma_mat_add_spec_wf(a: Seq<Seq<QVal>>, b: Seq<Seq<QVal>>)
    requires
        mat_wf(a),
        mat_wf(b),
        a.len() == b.len(),
        mat_cols(a) == mat_cols(b),
    ensures
        mat_wf(mat_add_spec(a, b)),
        mat_add_spec(a, b).len() == a.len(),
        mat_cols(mat_add_spec(a, b)) == mat_cols(a),
{
    let s = mat_add_spec(a, b);
    assert forall|i: int, j: int| 0 <= i < s.len() && 0 <= j < s[i].len() implies q_wf(
        #[trigger] s[i][j],
    ) by {
        crate::rat::lemma_q_wf_add(a[i][j], b[i][j]);
    }
    if a.len() > 0 {
        assert(s[0].len() == a[0].len());
    }
}

pub proof fn lemma_mat_transpose_spec_wf(m: Seq<Seq<QVal>>)
    requires
        mat_wf(m),
        m.len() > 0,
        mat_cols(m) > 0,
    ensures
        mat_wf(mat_transpose_spec(m)),
        mat_transpose_spec(m).len() == mat_cols(m),
        mat_cols(mat_transpose_spec(m)) == m.len(),
{
    let t = mat_transpose_spec(m);
    assert forall|i: int, j: int| 0 <= i < t.len() && 0 <= j < t[i].len() implies q_wf(
        #[trigger] t[i][j],
    ) by {
        assert(t[i][j] == m[j][i]);
    }
    if mat_cols(m) > 0 {
        assert(t[0].len() == m.len());
    }
}

pub proof fn lemma_mat_vec_spec_wf(m: Seq<Seq<QVal>>, v: Seq<QVal>)
    requires
        mat_wf(m),
        q_seq_wf(v),
        mat_cols(m) == v.len(),
    ensures
        q_seq_wf(mat_vec_spec(m, v)),
        mat_vec_spec(m, v).len() == m.len(),
{
    let s = mat_vec_spec(m, v);
    assert forall|i: int| 0 <= i < s.len() implies q_wf(#[trigger] s[i]) by {
        assert(s[i] == q_dot(m[i], v));
        assert(q_seq_wf(m[i]));
        lemma_q_zip_mul_wf(m[i], v);
        lemma_q_sum_wf(q_zip_mul(m[i], v));
    }
}

/// Matrix multiplication respects pointwise matrix equality.
pub proof fn lemma_mat_mul_congr(
    a: Seq<Seq<QVal>>,
    a2: Seq<Seq<QVal>>,
    b: Seq<Seq<QVal>>,
    b2: Seq<Seq<QVal>>,
)
    requires
        mat_wf(a),
        mat_wf(a2),
        mat_wf(b),
        mat_wf(b2),
        mat_eq(a, a2),
        mat_eq(b, b2),
        mat_cols(a) == b.len(),
    ensures
        mat_eq(mat_mul_spec(a, b), mat_mul_spec(a2, b2)),
{
    let m = mat_mul_spec(a, b);
    let m2 = mat_mul_spec(a2, b2);
    assert(mat_cols(b) == mat_cols(b2));
    assert forall|i: int| 0 <= i < m.len() implies (#[trigger] m[i]).len() == m2[i].len() by {}
    assert forall|i: int, j: int| 0 <= i < m.len() && 0 <= j < m[i].len() implies q_eq(
        #[trigger] m[i][j],
        m2[i][j],
    ) by {
        assert(m[i][j] == q_dot(a[i], mat_col(b, j)));
        assert(m2[i][j] == q_dot(a2[i], mat_col(b2, j)));
        assert(q_seq_wf(a[i]));
        assert(q_seq_wf(a2[i]));
        assert forall|t: int| 0 <= t < mat_col(b, j).len() implies q_wf(
            #[trigger] mat_col(b, j)[t],
        ) by {
            assert(mat_col(b, j)[t] == b[t][j]);
        }
        assert forall|t: int| 0 <= t < mat_col(b2, j).len() implies q_wf(
            #[trigger] mat_col(b2, j)[t],
        ) by {
            assert(mat_col(b2, j)[t] == b2[t][j]);
        }
        assert forall|t: int| 0 <= t < mat_col(b, j).len() implies q_eq(
            #[trigger] mat_col(b, j)[t],
            mat_col(b2, j)[t],
        ) by {
            assert(mat_col(b, j)[t] == b[t][j]);
            assert(mat_col(b2, j)[t] == b2[t][j]);
        }
        crate::qseq::lemma_q_dot_congr(a[i], a2[i], mat_col(b, j), mat_col(b2, j));
    }
}

/// Entrywise addition respects pointwise matrix equality.
pub proof fn lemma_mat_add_congr(
    a: Seq<Seq<QVal>>,
    a2: Seq<Seq<QVal>>,
    b: Seq<Seq<QVal>>,
    b2: Seq<Seq<QVal>>,
)
    requires
        mat_wf(a),
        mat_wf(a2),
        mat_wf(b),
        mat_wf(b2),
        mat_eq(a, a2),
        mat_eq(b, b2),
        a.len() == b.len(),
        mat_cols(a) == mat_cols(b),
    ensures
        mat_eq(mat_add_spec(a, b), mat_add_spec(a2, b2)),
{
    let m = mat_add_spec(a, b);
    let m2 = mat_add_spec(a2, b2);
    assert forall|i: int, j: int| 0 <= i < m.len() && 0 <= j < m[i].len() implies q_eq(
        #[trigger] m[i][j],
        m2[i][j],
    ) by {
        crate::rat::lemma_q_add_congr(a[i][j], a2[i][j], b[i][j], b2[i][j]);
    }
}

/// Matrix-vector multiplication respects pointwise equality.
pub proof fn lemma_mat_vec_congr(
    m: Seq<Seq<QVal>>,
    m2: Seq<Seq<QVal>>,
    v: Seq<QVal>,
    v2: Seq<QVal>,
)
    requires
        mat_wf(m),
        mat_wf(m2),
        q_seq_wf(v),
        q_seq_wf(v2),
        mat_eq(m, m2),
        q_seq_eq(v, v2),
        mat_cols(m) == v.len(),
    ensures
        q_seq_eq(mat_vec_spec(m, v), mat_vec_spec(m2, v2)),
{
    let s = mat_vec_spec(m, v);
    let s2 = mat_vec_spec(m2, v2);
    assert forall|i: int| 0 <= i < s.len() implies q_eq(#[trigger] s[i], s2[i]) by {
        assert(s[i] == q_dot(m[i], v));
        assert(s2[i] == q_dot(m2[i], v2));
        assert(q_seq_wf(m[i]));
        assert(q_seq_wf(m2[i]));
        crate::qseq::lemma_q_dot_congr(m[i], m2[i], v, v2);
    }
}

/// Both products with `b` give the identity: `b` is a two-sided inverse of
/// `a` at size `n`.
pub open spec fn inverse_pair(a: Seq<Seq<QVal>>, b: Seq<Seq<QVal>>, n: int) -> bool {
    &&& mat_wf(b)
    &&& b.len() == n
    &&& mat_cols(b) == n
    &&& a.len() == n
    &&& mat_cols(a) == n
    &&& mat_eq(mat_mul_spec(a, b), mat_identity_spec(n))
    &&& mat_eq(mat_mul_spec(b, a), mat_identity_spec(n))
}

/// An inverse of a matrix is an inverse of any pointwise-equal matrix.
pub proof fn lemma_inverse_pair_congr(a: Seq<Seq<QVal>>, a2: Seq<Seq<QVal>>, b: Seq<Seq<QVal>>, n: int)
    requires
        mat_wf(a),
        mat_wf(a2),
        mat_eq(a, a2),
        inverse_pair(a, b, n),
    ensures
        inverse_pair(a2, b, n),
{
    lemma_mat_mul_spec_wf(a, b);
    lemma_mat_mul_spec_wf(a2, b);
    lemma_mat_mul_spec_wf(b, a);
    lemma_mat_mul_spec_wf(b, a2);
    lemma_identity_spec_wf(n);
    assert(mat_eq(b, b));
    lemma_mat_mul_congr(a, a2, b, b);
    lemma_mat_eq_sym(mat_mul_spec(a, b), mat_mul_spec(a2, b));
    lemma_mat_eq_trans(mat_mul_spec(a2, b), mat_mul_spec(a, b), mat_identity_spec(n));
    lemma_mat_mul_congr(b, b, a, a2);
    lemma_mat_eq_sym(mat_mul_spec(b, a), mat_mul_spec(b, a2));
    lemma_mat_eq_trans(mat_mul_spec(b, a2), mat_mul_spec(b, a), mat_identity_spec(n));
}

// ---------------------------------------------------------------------------
// Gauss-Jordan inversion.
// ---------------------------------------------------------------------------

/// Whether `m` is exactly the identity of its own size (and square).
pub open spec fn is_identity_spec(m: Seq<Seq<QVal>>) -> bool {
    mat_eq(m, mat_identity_spec(m.len() as int))
}

/// Exchange rows `i` and `j`.
fn swap_rows(v: &mut Vec<Vec<Rat>>, i: usize, j: usize)
    requires
        i < old(v)@.len(),
        j < old(v)@.len(),
    ensures
        final(v)@ == old(v)@.update(i as int, old(v)@[j as int]).update(
            j as int,
            old(v)@[i as int],
        ),
{
    if i == j {
        proof {
            assert(v@ =~= old(v)@.update(i as int, old(v)@[j as int]).update(
                j as int,
                old(v)@[i as int],
            ));
        }
        return ;
    }
    let (lo, hi) = if i < j {
        (i, j)
    } else {
        (j, i)
    };
    let row_hi = v.remove(hi);
    let row_lo = v.remove(lo);
    v.insert(lo, row_hi);
    v.insert(hi, row_lo);
    proof {
        assert(v@ =~= old(v)@.update(i as int, old(v)@[j as int]).update(
            j as int,
            old(v)@[i as int],
        ));
    }
}

/// The row divided entrywise by `d`.
fn row_scale_div(row: &Vec<Rat>, d: &Rat) -> (r: Option<Vec<Rat>>)
    requires
        rat_seq_wf(row@),
        rat_wf(*d),
        d.num != 0,
    ensures
        r matches Some(v) ==> rat_seq_wf(v@) && v@.len() == row@.len() && forall|j: int|
            0 <= j < v@.len() ==> q_eq((#[trigger] v@[j])@, q_div(row@[j]@, d@)),
{
    let mut out: Vec<Rat> = Vec::new();
    let mut j: usize = 0;
    let n = row.len();
    while j < n
        invariant
            j <= n,
            n == row@.len(),
            rat_seq_wf(row@),
            rat_wf(*d),
            d.num != 0,
            out@.len() == j as int,
            forall|j2: int|
                0 <= j2 < j as int ==> rat_wf(#[trigger] out@[j2]) && q_eq(
                    out@[j2]@,
                    q_div(row@[j2]@, d@),
                ),
        decreases n - j,
    {
        match row[j].div(d) {
            Some(x) => out.push(x),
            None => {
                return None;
            },
        }
        j += 1;
    }
    Some(out)
}

/// The row minus `factor` times the pivot row, entrywise.
fn row_axpy(row: &Vec<Rat>, pivot: &Vec<Rat>, factor: &Rat) -> (r: Option<Vec<Rat>>)
    requires
        rat_seq_wf(row@),
        rat_seq_wf(pivot@),
        rat_wf(*factor),
        pivot@.len() == row@.len(),
    ensures
        r matches Some(v) ==> rat_seq_wf(v@) && v@.len() == row@.len() && forall|j: int|
            0 <= j < v@.len() ==> q_eq(
                (#[trigger] v@[j])@,
                q_sub(row@[j]@, q_mul(factor@, pivot@[j]@)),
            ),
{
    let mut out: Vec<Rat> = Vec::new();
    let mut j: usize = 0;
    let n = row.len();
    while j < n
        invariant
            j <= n,
            n == row@.len(),
            n == pivot@.len(),
            rat_seq_wf(row@),
            rat_seq_wf(pivot@),
            rat_wf(*factor),
            out@.len() == j as int,
            forall|j2: int|
                0 <= j2 < j as int ==> rat_wf(#[trigger] out@[j2]) && q_eq(
                    out@[j2]@,
                    q_sub(row@[j2]@, q_mul(factor@, pivot@[j2]@)),
                ),
        decreases n - j,
    {
        let p = match factor.mul(&pivot[j]) {
            Some(p) => p,
            None => {
                return None;
            },
        };
        let x = match row[j].sub(&p) {
            Some(x) => x,
            None => {
                return None;
            },
        };
        proof {
            crate::rat::lemma_q_wf_mul(factor@, pivot@[j as int]@);
            crate::rat::lemma_q_neg_congr(p@, q_mul(factor@, pivot@[j as int]@));
            crate::rat::lemma_q_add_congr(
                row@[j as int]@,
                row@[j as int]@,
                crate::rat::q_neg(p@),
                crate::rat::q_neg(q_mul(factor@, pivot@[j as int]@)),
            );
            crate::rat::lemma_q_wf_add(row@[j as int]@, crate::rat::q_neg(p@));
            crate::rat::lemma_q_wf_add(
                row@[j as int]@,
                crate::rat::q_neg(q_mul(factor@, pivot@[j as int]@)),
            );
            lemma_q_eq_trans(
                x@,
                q_sub(row@[j as int]@, p@),
                q_sub(row@[j as int]@, q_mul(factor@, pivot@[j as int]@)),
            );
        }
        out.push(x);
        j += 1;
    }
    Some(out)
}

impl Matrix {
    /// A fresh rectangular copy of the row storage.
    fn copy_rows(&self) -> (v: Vec<Vec<Rat>>)
        requires
            self.wf(),
        ensures
            rows_wf(v@),
            v@.len() == self@.len(),
            forall|i: int| 0 <= i < v@.len() ==> (#[trigger] v@[i])@.len() == mat_cols(self@),
    {
        proof {
            self.lemma_wf_view();
        }
        let n = self.rows();
        let c = self.cols();
        let mut v: Vec<Vec<Rat>> = Vec::new();
        let mut i: usize = 0;
        while i < n
            invariant
                i <= n,
                self.wf(),
                n as int == self@.len(),
                c as int == mat_cols(self@),
                v@.len() == i as int,
                forall|i2: int| 0 <= i2 < i as int ==> (#[trigger] v@[i2])@.len() == c as int,
                forall|i2: int, j: int|
                    0 <= i2 < i as int && 0 <= j < c as int ==> rat_wf(#[trigger] v@[i2]@[j]),
            decreases n - i,
        {
            let mut row: Vec<Rat> = Vec::new();
            let mut j: usize = 0;
            while j < c
                invariant
                    i < n,
                    j <= c,
                    self.wf(),
                    n as int == self@.len(),
                    c as int == mat_cols(self@),
                    row@.len() == j as int,
                    forall|j2: int| 0 <= j2 < j as int ==> rat_wf(#[trigger] row@[j2]),
                decreases c - j,
            {
                row.push(self.get(i, j));
                j += 1;
            }
            v.push(row);
            i += 1;
        }
        proof {
            if v@.len() > 0 {
                assert(mat_view_of(v@)[0].len() == v@[0]@.len());
            }
        }
        v
    }

    /// Whether this matrix is exactly the identity.
    pub fn is_identity(&self) -> (r: bool)
        requires
            self.wf(),
        ensures
            r == is_identity_spec(self@),
    {
        proof {
            self.lemma_wf_view();
            lemma_identity_spec_wf(self@.len() as int);
        }
        let n = self.rows();
        if self.cols() != n {
            return false;
        }
        let one = Rat::one();
        let zero = Rat::zero();
        let mut i: usize = 0;
        while i < n
            invariant
                i <= n,
                self.wf(),
                n as int == self@.len(),
                n as int == mat_cols(self@),
                forall|i2: int, j: int|
                    0 <= i2 < i as int && 0 <= j < n as int ==> q_eq(
                        #[trigger] self@[i2][j],
                        mat_identity_spec(n as int)[i2][j],
                    ),
                rat_wf(one),
                one@ == q_one(),
                rat_wf(zero),
                zero@ == q_zero(),
            decreases n - i,
        {
            let mut j: usize = 0;
            while j < n
                invariant
                    i < n,
                    j <= n,
                    self.wf(),
                    n as int == self@.len(),
                    n as int == mat_cols(self@),
                    forall|j2: int|
                        0 <= j2 < j as int ==> q_eq(
                            #[trigger] self@[i as int][j2],
                            mat_identity_spec(n as int)[i as int][j2],
                        ),
                    rat_wf(one),
                    one@ == q_one(),
                    rat_wf(zero),
                    zero@ == q_zero(),
                decreases n - j,
            {
                let x = self.get(i, j);
                let ok = if i == j {
                    x.eq_rat(&one)
                } else {
                    x.eq_rat(&zero)
                };
                if !ok {
                    return false;
                }
                j += 1;
            }
            i += 1;
        }
        true
    }

    /// The inverse by Gauss-Jordan elimination with partial pivoting, using
    /// `threshold` as the near-singularity cutoff: if no remaining row has a
    /// pivot whose absolute value is at least `threshold`, the matrix is
    /// rejected as near-singular.
    ///
    /// On success the result is an exact two-sided inverse: both products
    /// with the input equal the identity. The final exactness check makes
    /// that contract unconditional; with exact arithmetic its comparison
    /// cannot fail after a completed elimination, though computing its two
    /// products can still overflow the representation.
    ///
    /// The contract pins every dimension error exactly and pins the value
    /// of every success. It does not say which square matrices invert
    /// without a `NearSingular` or `Overflow` report: that depends on the
    /// pivot magnitudes and intermediate reduced forms the elimination
    /// meets, step by step, which only a specification-level replay of the
    /// elimination could state.
    #[verifier::loop_isolation(false)]
    pub fn invert_with(&self, threshold: &Rat) -> (r: Result<Matrix, MatError>)
        requires
            self.wf(),
            rat_wf(*threshold),
        ensures
            r matches Ok(b) ==> b.wf() && self@.len() > 0 && mat_cols(self@) == self@.len()
                && b@.len() == self@.len() && mat_cols(b@) == self@.len() && mat_eq(
                mat_mul_spec(self@, b@),
                mat_identity_spec(self@.len() as int),
            ) && mat_eq(mat_mul_spec(b@, self@), mat_identity_spec(self@.len() as int)),
            (self@.len() == 0 || mat_cols(self@) == 0) <==> r == Err::<Matrix, MatError>(
                MatError::EmptyInput,
            ),
            (self@.len() > 0 && mat_cols(self@) > 0 && mat_cols(self@) != self@.len()) <==> r
                == Err::<Matrix, MatError>(MatError::DimMismatch),
            r is Err ==> r == Err::<Matrix, MatError>(MatError::EmptyInput) || r == Err::<
                Matrix,
                MatError,
            >(MatError::DimMismatch) || r == Err::<Matrix, MatError>(MatError::NearSingular) || r
                == Err::<Matrix, MatError>(MatError::Overflow),
    {
        proof {
            self.lemma_wf_view();
        }
        let n = self.rows();
        let c = self.cols();
        if n == 0 || c == 0 {
            return Err(MatError::EmptyInput);
        }
        if c != n {
            return Err(MatError::DimMismatch);
        }
        let mut a = self.copy_rows();
        let mut inv = Matrix::identity(n).data;
        proof {
            lemma_identity_spec_wf(n as int);
            assert(rows_wf(inv@));
            assert(forall|i: int| 0 <= i < inv@.len() ==> (#[trigger] inv@[i])@.len() == n as int);
        }
        let mut i: usize = 0;
        while i < n
            invariant
                i <= n,
                n as int == self@.len(),
                a@.len() == n as int,
                inv@.len() == n as int,
                forall|t: int| 0 <= t < n as int ==> (#[trigger] a@[t])@.len() == n as int,
                forall|t: int| 0 <= t < n as int ==> (#[trigger] inv@[t])@.len() == n as int,
                forall|t: int| 0 <= t < n as int ==> rat_seq_wf((#[trigger] a@[t])@),
                forall|t: int| 0 <= t < n as int ==> rat_seq_wf((#[trigger] inv@[t])@),
            decreases n - i,
        {
            // Find the row in [i, n) whose entry in column i has the
            // largest absolute value.
            let mut max_val = Rat::zero();
            let mut max_row = i;
            let mut k: usize = i;
            while k < n
                invariant
                    i <= k <= n,
                    i < n,
                    a@.len() == n as int,
                    forall|t: int| 0 <= t < n as int ==> (#[trigger] a@[t])@.len() == n as int,
                    forall|t: int| 0 <= t < n as int ==> rat_seq_wf((#[trigger] a@[t])@),
                    i <= max_row < n,
                    rat_wf(max_val),
                decreases n - k,
            {
                let abs_val = a[k][i].abs();
                if max_val.lt(&abs_val) {
                    max_val = abs_val;
                    max_row = k;
                }
                k += 1;
            }
            if max_val.lt(threshold) || max_val.is_zero() {
                return Err(MatError::NearSingular);
            }
            swap_rows(&mut a, i, max_row);
            swap_rows(&mut inv, i, max_row);
            // Normalize the pivot row.
            let diag = a[i][i];
            if diag.num == 0 {
                return Err(MatError::NearSingular);
            }
            let scaled_a = match row_scale_div(&a[i], &diag) {
                Some(v) => v,
                None => {
                    return Err(MatError::Overflow);
                },
            };
            let scaled_inv = match row_scale_div(&inv[i], &diag) {
                Some(v) => v,
                None => {
                    return Err(MatError::Overflow);
                },
            };
            a[i] = scaled_a;
            inv[i] = scaled_inv;
            // Eliminate column i from every other row.
            let mut k2: usize = 0;
            while k2 < n
                invariant
                    k2 <= n,
                    i < n,
                    a@.len() == n as int,
                    inv@.len() == n as int,
                    forall|t: int| 0 <= t < n as int ==> (#[trigger] a@[t])@.len() == n as int,
                    forall|t: int| 0 <= t < n as int ==> (#[trigger] inv@[t])@.len() == n as int,
                    forall|t: int| 0 <= t < n as int ==> rat_seq_wf((#[trigger] a@[t])@),
                    forall|t: int| 0 <= t < n as int ==> rat_seq_wf((#[trigger] inv@[t])@),
                decreases n - k2,
            {
                if k2 != i {
                    let factor = a[k2][i];
                    let new_a = match row_axpy(&a[k2], &a[i], &factor) {
                        Some(v) => v,
                        None => {
                            return Err(MatError::Overflow);
                        },
                    };
                    let new_inv = match row_axpy(&inv[k2], &inv[i], &factor) {
                        Some(v) => v,
                        None => {
                            return Err(MatError::Overflow);
                        },
                    };
                    a[k2] = new_a;
                    inv[k2] = new_inv;
                }
                k2 += 1;
            }
            i += 1;
        }
        let cand = Matrix { data: inv };
        proof {
            assert(cand.wf());
            assert(mat_view_of(cand.data@)[0].len() == cand.data@[0]@.len());
            cand.lemma_wf_view();
            self.lemma_wf_view();
            assert(mat_cols(cand@) == n as int);
        }
        // Exactness check: both products must be the identity. The
        // multiplications run on valid dimensions, so their only possible
        // failure is overflow.
        let left = match self.multiply(&cand) {
            Ok(m) => m,
            Err(_) => {
                return Err(MatError::Overflow);
            },
        };
        let right = match cand.multiply(self) {
            Ok(m) => m,
            Err(_) => {
                return Err(MatError::Overflow);
            },
        };
        if !left.is_identity() || !right.is_identity() {
            return Err(MatError::NearSingular);
        }
        proof {
            self.lemma_wf_view();
            cand.lemma_wf_view();
            left.lemma_wf_view();
            right.lemma_wf_view();
            lemma_mat_mul_spec_wf(self@, cand@);
            lemma_mat_mul_spec_wf(cand@, self@);
            lemma_identity_spec_wf(n as int);
            assert(left@.len() == n as int);
            lemma_mat_eq_sym(left@, mat_mul_spec(self@, cand@));
            lemma_mat_eq_trans(
                mat_mul_spec(self@, cand@),
                left@,
                mat_identity_spec(n as int),
            );
            assert(right@.len() == n as int);
            lemma_mat_eq_sym(right@, mat_mul_spec(cand@, self@));
            lemma_mat_eq_trans(
                mat_mul_spec(cand@, self@),
                right@,
                mat_identity_spec(n as int),
            );
        }
        Ok(cand)
    }

    /// The inverse with the default near-singularity threshold of
    /// one part in ten billion.
    pub fn invert(&self) -> (r: Result<Matrix, MatError>)
        requires
            self.wf(),
        ensures
            r matches Ok(b) ==> b.wf() && self@.len() > 0 && mat_cols(self@) == self@.len()
                && b@.len() == self@.len() && mat_cols(b@) == self@.len() && mat_eq(
                mat_mul_spec(self@, b@),
                mat_identity_spec(self@.len() as int),
            ) && mat_eq(mat_mul_spec(b@, self@), mat_identity_spec(self@.len() as int)),
            (self@.len() == 0 || mat_cols(self@) == 0) <==> r == Err::<Matrix, MatError>(
                MatError::EmptyInput,
            ),
            (self@.len() > 0 && mat_cols(self@) > 0 && mat_cols(self@) != self@.len()) <==> r
                == Err::<Matrix, MatError>(MatError::DimMismatch),
            r is Err ==> r == Err::<Matrix, MatError>(MatError::EmptyInput) || r == Err::<
                Matrix,
                MatError,
            >(MatError::DimMismatch) || r == Err::<Matrix, MatError>(MatError::NearSingular) || r
                == Err::<Matrix, MatError>(MatError::Overflow),
    {
        let threshold = Rat { num: 1, den: 10_000_000_000 };
        self.invert_with(&threshold)
    }
}

/// Pointwise matrix equality is symmetric.
pub proof fn lemma_mat_eq_sym(a: Seq<Seq<QVal>>, b: Seq<Seq<QVal>>)
    requires
        mat_eq(a, b),
        mat_rect(a),
        mat_rect(b),
    ensures
        mat_eq(b, a),
{
    assert forall|i: int, j: int| 0 <= i < b.len() && 0 <= j < b[i].len() implies q_eq(
        #[trigger] b[i][j],
        a[i][j],
    ) by {
        assert(q_eq(a[i][j], b[i][j]));
    }
}

} // verus!
