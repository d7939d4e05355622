//! Global laws of the matrix algebra: statements that relate several
//! operations, proved once here so that callers (and readers) can see what
//! the kernel guarantees beyond each function's own contract. The chief
//! ones: the identity is neutral for multiplication, multiplication is
//! associative, and therefore a two-sided inverse of an inverse is the
//! original matrix.

use vstd::prelude::*;
use crate::rat::{
    QVal, q_wf, q_eq, q_zero, q_one, q_add, q_mul, lemma_q_eq_trans, lemma_q_wf_add,
    lemma_q_wf_mul, lemma_q_mul_assoc, lemma_q_mul_comm, lemma_q_mul_one, lemma_q_mul_zero,
    lemma_q_add_congr,
};
use crate::qseq::{
    q_seq_wf, q_seq_eq, q_sum, q_zip_mul, q_dot, q_seq_add, q_seq_scale, lemma_q_sum_wf,
    lemma_q_sum_congr, lemma_q_sum_zero, lemma_q_sum_add, lemma_q_sum_scale,
    lemma_q_sum_almost_zero, lemma_q_zip_mul_wf, lemma_q_seq_add_wf, lemma_q_seq_scale_wf,
};
use crate::matrix::{
    mat_cols, mat_rect, mat_wf, mat_eq, mat_col, mat_mul_spec, mat_transpose_spec,
    mat_identity_spec, inverse_pair, lemma_mat_mul_spec_wf, lemma_identity_spec_wf,
    lemma_mat_mul_congr, lemma_mat_eq_trans, lemma_mat_eq_sym,
};

verus! {

/// Transposing twice gives back the original matrix, exactly.
pub proof fn lemma_transpose_involution(m: Seq<Seq<QVal>>)
    requires
        mat_rect(m),
        m.len() > 0,
        mat_cols(m) > 0,
    ensures
        mat_transpose_spec(mat_transpose_spec(m)) == m,
{
    let t = mat_transpose_spec(m);
    let tt = mat_transpose_spec(t);
    assert(t.len() == mat_cols(m));
    assert(mat_cols(t) == m.len());
    assert forall|i: int| 0 <= i < tt.len() implies #[trigger] tt[i] =~= m[i] by {
        assert forall|j: int| 0 <= j < tt[i].len() implies #[trigger] tt[i][j] == m[i][j] by {
            assert(tt[i][j] == t[j][i]);
            assert(t[j][i] == m[i][j]);
        }
    }
    assert(tt =~~= m);
}

/// The sums of the rows of a rectangular grid.
pub open spec fn row_sums(g: Seq<Seq<QVal>>) -> Seq<QVal> {
    Seq::new(g.len(), |i: int| q_sum(g[i]))
}

/// The sums of the columns of a rectangular grid.
pub open spec fn col_sums(g: Seq<Seq<QVal>>, cols: int) -> Seq<QVal> {
    Seq::new(cols as nat, |j: int| q_sum(mat_col(g, j)))
}

proof fn lemma_row_sums_wf(g: Seq<Seq<QVal>>)
    requires
        crate::matrix::mat_entries_wf(g),
    ensures
        q_seq_wf(row_sums(g)),
{
    assert forall|i: int| 0 <= i < row_sums(g).len() implies q_wf(#[trigger] row_sums(g)[i]) by {
        assert(q_seq_wf(g[i]));
        lemma_q_sum_wf(g[i]);
    }
}

proof fn lemma_col_sums_wf(g: Seq<Seq<QVal>>, cols: int)
    requires
        crate::matrix::mat_entries_wf(g),
        cols >= 0,
        forall|i: int| 0 <= i < g.len() ==> (#[trigger] g[i]).len() == cols,
    ensures
        q_seq_wf(col_sums(g, cols)),
{
    assert forall|j: int| 0 <= j < col_sums(g, cols).len() implies q_wf(
        #[trigger] col_sums(g, cols)[j],
    ) by {
        assert forall|t: int| 0 <= t < mat_col(g, j).len() implies q_wf(
            #[trigger] mat_col(g, j)[t],
        ) by {
            assert(mat_col(g, j)[t] == g[t][j]);
        }
        lemma_q_sum_wf(mat_col(g, j));
    }
}

/// Summing a rectangular grid row by row and column by column gives the
/// same total.
pub proof fn lemma_q_sum_swap(g: Seq<Seq<QVal>>, cols: int)
    requires
        crate::matrix::mat_entries_wf(g),
        cols >= 0,
        forall|i: int| 0 <= i < g.len() ==> (#[trigger] g[i]).len() == cols,
    ensures
        q_eq(q_sum(row_sums(g)), q_sum(col_sums(g, cols))),
    decreases g.len(),
{
    lemma_row_sums_wf(g);
    lemma_col_sums_wf(g, cols);
    if g.len() == 0 {
        assert(row_sums(g).len() == 0);
        assert forall|j: int| 0 <= j < col_sums(g, cols).len() implies q_eq(
            #[trigger] col_sums(g, cols)[j],
            q_zero(),
        ) by {
            assert(mat_col(g, j).len() == 0);
            assert(col_sums(g, cols)[j] == q_sum(mat_col(g, j)));
        }
        lemma_q_sum_zero(col_sums(g, cols));
        lemma_q_sum_wf(col_sums(g, cols));
        assert(q_eq(q_sum(row_sums(g)), q_zero()));
        lemma_q_eq_trans(q_sum(row_sums(g)), q_zero(), q_sum(col_sums(g, cols)));
    } else {
        let g1 = g.drop_last();
        let last = g.last();
        assert forall|i: int| 0 <= i < g1.len() implies (#[trigger] g1[i]).len() == cols by {
            assert(g1[i] == g[i]);
        }
        lemma_q_sum_swap(g1, cols);
        lemma_row_sums_wf(g1);
        lemma_col_sums_wf(g1, cols);
        assert(q_seq_wf(last));
        lemma_q_sum_wf(last);
        // Row side: the row sums of `g` extend those of `g1` by the last
        // row's sum.
        assert(row_sums(g).drop_last() =~= row_sums(g1));
        assert(q_sum(row_sums(g)) == q_add(q_sum(row_sums(g1)), q_sum(last)));
        // Column side: each column of `g` is the column of `g1` extended
        // by the last row's entry.
        assert forall|j: int| 0 <= j < cols implies #[trigger] col_sums(g, cols)[j] == q_add(
            col_sums(g1, cols)[j],
            last[j],
        ) by {
            assert(mat_col(g, j).drop_last() =~= mat_col(g1, j));
            assert(mat_col(g, j).last() == g.last()[j]);
        }
        assert(col_sums(g, cols) =~= q_seq_add(col_sums(g1, cols), last));
        lemma_q_sum_add(col_sums(g1, cols), last);
        // Combine: sum of col_sums(g) ~ sum(col_sums(g1)) + sum(last)
        //                            ~ sum(row_sums(g1)) + sum(last)
        //                            == sum(row_sums(g)).
        lemma_q_sum_wf(col_sums(g1, cols));
        lemma_q_sum_wf(row_sums(g1));
        lemma_q_add_congr(
            q_sum(col_sums(g1, cols)),
            q_sum(row_sums(g1)),
            q_sum(last),
            q_sum(last),
        );
        lemma_q_seq_add_wf(col_sums(g1, cols), last);
        lemma_q_sum_wf(q_seq_add(col_sums(g1, cols), last));
        lemma_q_wf_add(q_sum(col_sums(g1, cols)), q_sum(last));
        lemma_q_wf_add(q_sum(row_sums(g1)), q_sum(last));
        lemma_q_eq_trans(
            q_sum(col_sums(g, cols)),
            q_add(q_sum(col_sums(g1, cols)), q_sum(last)),
            q_add(q_sum(row_sums(g1)), q_sum(last)),
        );
        lemma_q_sum_wf(col_sums(g, cols));
    }
}

/// The inner product with a standard basis column picks out one entry.
proof fn lemma_q_dot_unit(r: Seq<QVal>, n: int, j: int)
    requires
        q_seq_wf(r),
        r.len() == n,
        0 <= j < n,
    ensures
        q_eq(q_dot(r, mat_col(mat_identity_spec(n), j)), r[j]),
{
    let u = mat_col(mat_identity_spec(n), j);
    let z = q_zip_mul(r, u);
    assert forall|t: int| 0 <= t < n implies #[trigger] u[t] == (if t == j {
        q_one()
    } else {
        q_zero()
    }) by {
        assert(u[t] == mat_identity_spec(n)[t][j]);
    }
    assert forall|t: int| 0 <= t < z.len() implies q_wf(#[trigger] z[t]) by {
        lemma_q_wf_mul(r[t], u[t]);
    }
    assert forall|t: int| 0 <= t < z.len() && t != j implies q_eq(#[trigger] z[t], q_zero()) by {
        lemma_q_mul_zero(r[t]);
    }
    lemma_q_sum_almost_zero(z, j);
    assert(z[j] == q_mul(r[j], q_one()));
    lemma_q_mul_one(r[j]);
}

/// Multiplying by the identity on the right changes nothing.
pub proof fn lemma_mat_mul_identity_right(a: Seq<Seq<QVal>>, n: int)
    requires
        mat_wf(a),
        mat_cols(a) == n,
        n > 0,
    ensures
        mat_eq(mat_mul_spec(a, mat_identity_spec(n)), a),
{
    let m = mat_mul_spec(a, mat_identity_spec(n));
    lemma_identity_spec_wf(n);
    assert forall|i: int, j: int| 0 <= i < m.len() && 0 <= j < m[i].len() implies q_eq(
        #[trigger] m[i][j],
        a[i][j],
    ) by {
        assert(m[i][j] == q_dot(a[i], mat_col(mat_identity_spec(n), j)));
        assert(q_seq_wf(a[i]));
        lemma_q_dot_unit(a[i], n, j);
    }
}

/// Multiplying by the identity on the left changes nothing.
pub proof fn lemma_mat_mul_identity_left(c: Seq<Seq<QVal>>, n: int)
    requires
        mat_wf(c),
        c.len() == n,
        n > 0,
    ensures
        mat_eq(mat_mul_spec(mat_identity_spec(n), c), c),
{
    let m = mat_mul_spec(mat_identity_spec(n), c);
    lemma_identity_spec_wf(n);
    assert(m.len() == n);
    assert forall|i: int, j: int| 0 <= i < m.len() && 0 <= j < m[i].len() implies q_eq(
        #[trigger] m[i][j],
        c[i][j],
    ) by {
        let row = mat_identity_spec(n)[i];
        let u = mat_col(c, j);
        let z = q_zip_mul(row, u);
        assert(m[i][j] == q_sum(z));
        assert forall|t: int| 0 <= t < n implies #[trigger] u[t] == c[t][j] by {}
        assert forall|t: int| 0 <= t < z.len() implies q_wf(#[trigger] z[t]) by {
            lemma_q_wf_mul(row[t], u[t]);
        }
        assert forall|t: int| 0 <= t < z.len() && t != i implies q_eq(
            #[trigger] z[t],
            q_zero(),
        ) by {
            assert(z[t] == q_mul(q_zero(), c[t][j]));
            lemma_q_mul_comm(q_zero(), c[t][j]);
            lemma_q_mul_zero(c[t][j]);
        }
        lemma_q_sum_almost_zero(z, i);
        assert(z[i] == q_mul(q_one(), c[i][j]));
        lemma_q_mul_comm(q_one(), c[i][j]);
        lemma_q_mul_one(c[i][j]);
    }
}

/// Matrix multiplication is associative (entrywise, up to rational
/// equality).
pub proof fn lemma_mat_mul_assoc(a: Seq<Seq<QVal>>, b: Seq<Seq<QVal>>, c: Seq<Seq<QVal>>)
    requires
        mat_wf(a),
        mat_wf(b),
        mat_wf(c),
        mat_cols(a) == b.len(),
        mat_cols(b) == c.len(),
        a.len() > 0,
        b.len() > 0,
        c.len() > 0,
        mat_cols(c) > 0,
    ensures
        mat_eq(
            mat_mul_spec(mat_mul_spec(a, b), c),
            mat_mul_spec(a, mat_mul_spec(b, c)),
        ),
    decreases a.len(),
{
    let kk = b.len() as int;
    let ll = mat_cols(b) as int;
    let ab = mat_mul_spec(a, b);
    let bc = mat_mul_spec(b, c);
    let lhs = mat_mul_spec(ab, c);
    let rhs = mat_mul_spec(a, bc);
    lemma_mat_mul_spec_wf(a, b);
    lemma_mat_mul_spec_wf(b, c);
    lemma_mat_mul_spec_wf(ab, c);
    lemma_mat_mul_spec_wf(a, bc);
    assert forall|i: int, j: int| 0 <= i < lhs.len() && 0 <= j < lhs[i].len() implies q_eq(
        #[trigger] lhs[i][j],
        rhs[i][j],
    ) by {
        lemma_mat_mul_assoc_entry(a, b, c, i, j);
    }
}

/// The entrywise core of associativity: entry `(i, j)` of `(a b) c` equals
/// entry `(i, j)` of `a (b c)`.
proof fn lemma_mat_mul_assoc_entry(
    a: Seq<Seq<QVal>>,
    b: Seq<Seq<QVal>>,
    c: Seq<Seq<QVal>>,
    i: int,
    j: int,
)
    requires
        mat_wf(a),
        mat_wf(b),
        mat_wf(c),
        mat_cols(a) == b.len(),
        mat_cols(b) == c.len(),
        0 <= i < a.len(),
        0 <= j < mat_cols(c),
    ensures
        q_eq(
            mat_mul_spec(mat_mul_spec(a, b), c)[i][j],
            mat_mul_spec(a, mat_mul_spec(b, c))[i][j],
        ),
{
    let kk = b.len() as int;
    let ll = c.len() as int;
    let ab = mat_mul_spec(a, b);
    let bc = mat_mul_spec(b, c);
    lemma_mat_mul_spec_wf(a, b);
    lemma_mat_mul_spec_wf(b, c);
    // The left side is the row-by-row total of this grid; the right side
    // is its column-by-column total.
    let grid = Seq::new(
        ll as nat,
        |l: int| Seq::new(kk as nat, |k: int| q_mul(q_mul(a[i][k], b[k][l]), c[l][j])),
    );
    assert forall|l: int, k: int| 0 <= l < ll && 0 <= k < kk implies q_wf(
        #[trigger] grid[l][k],
    ) by {
        lemma_q_wf_mul(a[i][k], b[k][l]);
        lemma_q_wf_mul(q_mul(a[i][k], b[k][l]), c[l][j]);
    }
    assert(crate::matrix::mat_entries_wf(grid));
    // Rows of the grid: row l is the products of a's row with b's column
    // l, all scaled by c[l][j].
    let zl = q_zip_mul(ab[i], mat_col(c, j));
    assert forall|l: int| 0 <= l < ll implies q_eq(
        #[trigger] zl[l],
        q_sum(grid[l]),
    ) by {
        let zab = q_zip_mul(a[i], mat_col(b, l));
        assert(q_seq_wf(a[i]));
        assert forall|t: int| 0 <= t < mat_col(b, l).len() implies q_wf(
            #[trigger] mat_col(b, l)[t],
        ) by {
            assert(mat_col(b, l)[t] == b[t][l]);
        }
        lemma_q_zip_mul_wf(a[i], mat_col(b, l));
        assert(grid[l] =~= q_seq_scale(zab, c[l][j]));
        lemma_q_sum_scale(zab, c[l][j]);
        assert(zl[l] == q_mul(q_sum(zab), c[l][j]));
        assert(ab[i][l] == q_dot(a[i], mat_col(b, l)));
        lemma_q_sum_wf(zab);
        lemma_q_seq_scale_wf(zab, c[l][j]);
        lemma_q_sum_wf(q_seq_scale(zab, c[l][j]));
        lemma_q_wf_mul(q_sum(zab), c[l][j]);
    }
    // Columns of the grid: column k is b's row k zipped with c's column j,
    // scaled by a[i][k].
    let zr = q_zip_mul(a[i], mat_col(bc, j));
    assert forall|k: int| 0 <= k < kk implies q_eq(
        q_sum(mat_col(grid, k)),
        #[trigger] zr[k],
    ) by {
        let zbc = q_zip_mul(b[k], mat_col(c, j));
        assert(q_seq_wf(b[k]));
        assert forall|t: int| 0 <= t < mat_col(c, j).len() implies q_wf(
            #[trigger] mat_col(c, j)[t],
        ) by {
            assert(mat_col(c, j)[t] == c[t][j]);
        }
        lemma_q_zip_mul_wf(b[k], mat_col(c, j));
        assert forall|l: int| 0 <= l < ll implies #[trigger] mat_col(grid, k)[l] == q_seq_scale(
            zbc,
            a[i][k],
        )[l] by {
            assert(mat_col(grid, k)[l] == grid[l][k]);
            assert(grid[l][k] == q_mul(q_mul(a[i][k], b[k][l]), c[l][j]));
            assert(q_seq_scale(zbc, a[i][k])[l] == q_mul(q_mul(b[k][l], c[l][j]), a[i][k]));
            lemma_q_mul_assoc(a[i][k], b[k][l], c[l][j]);
            lemma_q_mul_comm(a[i][k], q_mul(b[k][l], c[l][j]));
        }
        assert(mat_col(grid, k) =~= q_seq_scale(zbc, a[i][k]));
        lemma_q_sum_scale(zbc, a[i][k]);
        assert(bc[k][j] == q_dot(b[k], mat_col(c, j)));
        assert(zr[k] == q_mul(a[i][k], q_sum(zbc)));
        lemma_q_mul_comm(q_sum(zbc), a[i][k]);
    }
    // Stitch the two sides together through the grid.
    assert(q_seq_wf(zl)) by {
        assert forall|t: int| 0 <= t < zl.len() implies q_wf(#[trigger] zl[t]) by {
            assert(mat_col(c, j)[t] == c[t][j]);
            lemma_q_wf_mul(ab[i][t], mat_col(c, j)[t]);
        }
    }
    assert(q_seq_wf(zr)) by {
        assert forall|t: int| 0 <= t < zr.len() implies q_wf(#[trigger] zr[t]) by {
            assert(mat_col(bc, j)[t] == bc[t][j]);
            lemma_q_wf_mul(a[i][t], mat_col(bc, j)[t]);
        }
    }
    assert(row_sums(grid) =~= Seq::new(ll as nat, |l: int| q_sum(grid[l])));
    lemma_row_sums_wf(grid);
    lemma_col_sums_wf(grid, kk);
    assert(q_seq_eq(zl, row_sums(grid)));
    lemma_q_sum_congr(zl, row_sums(grid));
    lemma_q_sum_swap(grid, kk);
    assert(q_seq_eq(col_sums(grid, kk), zr));
    lemma_q_sum_congr(col_sums(grid, kk), zr);
    lemma_q_sum_wf(zl);
    lemma_q_sum_wf(zr);
    lemma_q_sum_wf(row_sums(grid));
    lemma_q_sum_wf(col_sums(grid, kk));
    lemma_q_eq_trans(q_sum(zl), q_sum(row_sums(grid)), q_sum(col_sums(grid, kk)));
    lemma_q_eq_trans(q_sum(zl), q_sum(col_sums(grid, kk)), q_sum(zr));
    assert(mat_mul_spec(mat_mul_spec(a, b), c)[i][j] == q_sum(zl));
    assert(mat_mul_spec(a, mat_mul_spec(b, c))[i][j] == q_sum(zr));
}

/// Inverting twice gives back the original matrix: if `b` is a two-sided
/// inverse of `a` and `c` a two-sided inverse of `b`, then `c` equals `a`
/// entrywise.
pub proof fn lemma_inverse_round_trip(
    a: Seq<Seq<QVal>>,
    b: Seq<Seq<QVal>>,
    c: Seq<Seq<QVal>>,
    n: int,
)
    requires
        mat_wf(a),
        mat_wf(c),
        n > 0,
        inverse_pair(a, b, n),
        inverse_pair(b, c, n),
    ensures
        mat_eq(c, a),
{
    let id = mat_identity_spec(n);
    lemma_identity_spec_wf(n);
    lemma_mat_mul_spec_wf(a, b);
    lemma_mat_mul_spec_wf(b, c);
    lemma_mat_mul_spec_wf(mat_mul_spec(a, b), c);
    lemma_mat_mul_spec_wf(a, mat_mul_spec(b, c));
    lemma_mat_mul_spec_wf(id, c);
    lemma_mat_mul_spec_wf(a, id);
    // c ~ id * c ~ (a b) c ~ a (b c) ~ a id ~ a
    lemma_mat_mul_identity_left(c, n);
    lemma_mat_eq_sym(mat_mul_spec(id, c), c);
    lemma_mat_eq_sym(mat_mul_spec(a, b), id);
    assert(mat_eq(c, c));
    lemma_mat_mul_congr(id, mat_mul_spec(a, b), c, c);
    lemma_mat_eq_trans(c, mat_mul_spec(id, c), mat_mul_spec(mat_mul_spec(a, b), c));
    lemma_mat_mul_assoc(a, b, c);
    lemma_mat_eq_trans(
        c,
        mat_mul_spec(mat_mul_spec(a, b), c),
        mat_mul_spec(a, mat_mul_spec(b, c)),
    );
    assert(mat_eq(a, a));
    lemma_mat_mul_congr(a, a, mat_mul_spec(b, c), id);
    lemma_mat_eq_trans(
        c,
        mat_mul_spec(a, mat_mul_spec(b, c)),
        mat_mul_spec(a, id),
    );
    lemma_mat_mul_identity_right(a, n);
    lemma_mat_eq_trans(c, mat_mul_spec(a, id), a);
}

} // verus!
