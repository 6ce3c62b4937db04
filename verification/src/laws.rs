//! Proved laws relating the decompositions.
//!
//! The statements here hold of the fraction sequences the operations'
//! contracts speak of: what reduction does to matrices already in reduced
//! row-echelon form, what determinant and rank make of identity and
//! all-zero matrices.

use crate::determinant::{
    det2_spec, det3_spec, det4_sum, det4_term, det_spec, minor_spec, sign_spec,
};
use crate::echelon::{
    count_nonzero_rows, eliminate_spec, find_pivot, lemma_find_pivot_some, row_is_zero,
    rref_from, rref_spec, scale_row_spec, scan_col, swap_rows_spec,
};
use crate::inverse::{inv_entry_spec, minor_det_spec};
use crate::matrix::{col_spec, mat_rect, mat_vals_ok};
use crate::rational::{
    lemma_canon_zero, lemma_ndiv_self, lemma_nmul_zero, lemma_nop_wf, lemma_one_neutral,
    lemma_rat_eq_trans, lemma_rmul_congr, lemma_rnorm_eq, lemma_rnorm_idem, lemma_zero_neutral,
    lemma_zero_one_ok, nadd, ndiv, nmul, nsub, rat_canon, rat_eq, rat_ok, rat_one, rat_wf,
    rat_zero, rdiv, rmul, rnorm, Rat,
};
use crate::vector::dot_spec;
use vstd::prelude::*;

verus! {

/// The fractions of the identity matrix with `n` rows.
pub open spec fn identity_spec(n: int) -> Seq<Seq<Rat>> {
    Seq::new(
        n as nat,
        |i: int|
            Seq::new(
                n as nat,
                |j: int|
                    if i == j {
                        rat_one()
                    } else {
                        rat_zero()
                    },
            ),
    )
}

/// The fractions of the all-zero matrix.
pub open spec fn zeros_spec(rows: int, cols: int) -> Seq<Seq<Rat>> {
    Seq::new(rows as nat, |i: int| Seq::new(cols as nat, |j: int| rat_zero()))
}

/// The column of the row's first nonzero entry, scanning from `j`; the
/// row's length when there is none.
pub open spec fn lead_col(row: Seq<Rat>, j: int) -> int
    decreases row.len() - j,
{
    if j < 0 || j >= row.len() {
        row.len() as int
    } else if row[j].n != 0 {
        j
    } else {
        lead_col(row, j + 1)
    }
}

/// Where the first nonzero entry sits: entries before it denote zero, it
/// does not, and a row without one is a zero row.
pub proof fn lemma_lead_col(row: Seq<Rat>, j: int)
    requires
        0 <= j <= row.len(),
        forall|q: int| 0 <= q < j ==> (#[trigger] row[q]).n == 0,
    ensures
        j <= lead_col(row, j) <= row.len(),
        lead_col(row, j) == lead_col(row, 0),
        forall|q: int| 0 <= q < lead_col(row, 0) ==> (#[trigger] row[q]).n == 0,
        lead_col(row, 0) < row.len() ==> row[lead_col(row, 0)].n != 0,
        lead_col(row, 0) == row.len() ==> row_is_zero(row),
    decreases j,
{
    if j == 0 {
        lemma_lead_col_from(row, 0);
    } else {
        assert(lead_col(row, j - 1) == lead_col(row, j));
        lemma_lead_col(row, j - 1);
    }
}

/// The scan from `j` lands at or after `j`, on a nonzero entry, with only
/// zero-denoting entries on the way.
proof fn lemma_lead_col_from(row: Seq<Rat>, j: int)
    requires
        0 <= j <= row.len(),
    ensures
        j <= lead_col(row, j) <= row.len(),
        forall|q: int| j <= q < lead_col(row, j) ==> (#[trigger] row[q]).n == 0,
        lead_col(row, j) < row.len() ==> row[lead_col(row, j)].n != 0,
        lead_col(row, j) == row.len() ==> forall|q: int|
            j <= q < row.len() ==> (#[trigger] row[q]).n == 0,
    decreases row.len() - j,
{
    if j < row.len() && row[j].n == 0 {
        lemma_lead_col_from(row, j + 1);
    }
}

/// Every entry is well-formed and in lowest terms (no size bound asked:
/// the laws hold of ideal fractions).
pub open spec fn mat_canon(m: Seq<Seq<Rat>>) -> bool {
    forall|i: int, j: int|
        0 <= i < m.len() && 0 <= j < m[i].len() ==> rat_wf(#[trigger] m[i][j]) && rat_canon(
            m[i][j],
        )
}

/// A matrix of scalar-representable entries has well-formed entries in
/// lowest terms.
pub proof fn lemma_vals_ok_canon(m: Seq<Seq<Rat>>)
    requires
        mat_vals_ok(m),
    ensures
        mat_canon(m),
{
}

/// The matrix is in reduced row-echelon form: each nonzero row leads with
/// a one that is alone in its column, leading columns grow strictly down
/// the rows, and zero rows sit at the bottom.
pub open spec fn is_rref(m: Seq<Seq<Rat>>, cols: int) -> bool {
    &&& forall|i: int|
        0 <= i < m.len() && !row_is_zero(#[trigger] m[i]) ==> {
            let p = lead_col(m[i], 0);
            &&& p < cols
            &&& m[i][p] == rat_one()
            &&& forall|k: int| 0 <= k < m.len() && k != i ==> (#[trigger] m[k][p]).n == 0
        }
    &&& forall|i: int, k: int|
        0 <= i < k < m.len() && !row_is_zero(#[trigger] m[k]) ==> !row_is_zero(#[trigger] m[i])
            && lead_col(m[i], 0) < lead_col(m[k], 0)
}

/// A column whose entries denote zero from row `i0` down yields no pivot
/// row.
proof fn lemma_scan_col_none(m: Seq<Seq<Rat>>, q: int, i0: int)
    requires
        0 <= i0,
        forall|i: int| i0 <= i < m.len() ==> (#[trigger] m[i][q]).n == 0,
    ensures
        scan_col(m, q, i0) is None,
    decreases m.len() - i0,
{
    if i0 < m.len() {
        lemma_scan_col_none(m, q, i0 + 1);
    }
}

/// When every column from `p` on denotes zero below row `r`, no pivot is
/// found.
proof fn lemma_find_pivot_none(m: Seq<Seq<Rat>>, r: int, p: int, cols: int)
    requires
        0 <= r,
        0 <= p,
        forall|q: int, i: int|
            p <= q < cols && r <= i < m.len() ==> (#[trigger] m[i][q]).n == 0,
    ensures
        find_pivot(m, r, p, cols) is None,
    decreases cols - p,
{
    if p < cols {
        lemma_scan_col_none(m, p, r);
        lemma_find_pivot_none(m, r, p + 1, cols);
    }
}

/// When the columns between the cursor and `pr` denote zero below row `r`
/// and row `r` holds a nonzero entry in column `pr`, that entry is the
/// pivot found.
proof fn lemma_find_pivot_at(m: Seq<Seq<Rat>>, r: int, p: int, pr: int, cols: int)
    requires
        0 <= r < m.len(),
        0 <= p <= pr < cols,
        m[r][pr].n != 0,
        forall|q: int, i: int|
            p <= q < pr && r <= i < m.len() ==> (#[trigger] m[i][q]).n == 0,
    ensures
        find_pivot(m, r, p, cols) == Some((pr, r)),
    decreases pr - p,
{
    if p == pr {
        assert(scan_col(m, pr, r) == Some(r));
    } else {
        lemma_scan_col_none(m, p, r);
        lemma_find_pivot_at(m, r, p + 1, pr, cols);
    }
}

/// A column that yields no pivot row denotes zero from row `i0` down.
proof fn lemma_scan_col_none_inv(m: Seq<Seq<Rat>>, q: int, i0: int)
    requires
        0 <= i0,
        scan_col(m, q, i0) is None,
    ensures
        forall|i: int| i0 <= i < m.len() ==> (#[trigger] m[i][q]).n == 0,
    decreases m.len() - i0,
{
    if i0 < m.len() {
        lemma_scan_col_none_inv(m, q, i0 + 1);
    }
}

/// When no pivot is found, every column from `p` on denotes zero below
/// row `r`.
proof fn lemma_find_pivot_none_inv(m: Seq<Seq<Rat>>, r: int, p: int, cols: int)
    requires
        0 <= r,
        0 <= p,
        find_pivot(m, r, p, cols) is None,
    ensures
        forall|q: int, i: int|
            p <= q < cols && r <= i < m.len() ==> (#[trigger] m[i][q]).n == 0,
    decreases cols - p,
{
    if p < cols {
        lemma_scan_col_none_inv(m, p, r);
        lemma_find_pivot_none_inv(m, r, p + 1, cols);
    }
}

/// The columns between the cursor and the pivot found denote zero below
/// row `r`.
proof fn lemma_find_pivot_some_cols(m: Seq<Seq<Rat>>, r: int, p: int, cols: int, pi: (int, int))
    requires
        0 <= r,
        0 <= p,
        find_pivot(m, r, p, cols) == Some(pi),
    ensures
        forall|q: int, i: int|
            p <= q < pi.0 && r <= i < m.len() ==> (#[trigger] m[i][q]).n == 0,
    decreases cols - p,
{
    if p < cols {
        match scan_col(m, p, r) {
            Some(_) => {
            },
            None => {
                lemma_scan_col_none_inv(m, p, r);
                lemma_find_pivot_some_cols(m, r, p + 1, cols, pi);
            },
        }
    }
}

/// The bookkeeping one elimination round keeps: the first `r` rows carry
/// the pivot columns `ps`, strictly increasing and left of the cursor,
/// each leading a row of zeros with a lone one in its column; everything
/// left of the cursor in the rows below is zero.
spec fn elim_inv(m: Seq<Seq<Rat>>, r: int, p: int, cols: int, ps: Seq<int>) -> bool {
    &&& mat_rect(m, cols)
    &&& mat_canon(m)
    &&& ps.len() == r
    &&& forall|i: int| 0 <= i < r ==> 0 <= #[trigger] ps[i] < p
    &&& forall|i: int, k: int| #![trigger ps[i], ps[k]] 0 <= i < k < r ==> ps[i] < ps[k]
    &&& forall|i: int| 0 <= i < r ==> m[i][#[trigger] ps[i]] == rat_one()
    &&& forall|i: int, k: int|
        #![trigger m[k][ps[i]]]
        0 <= i < r && 0 <= k < m.len() && k != i ==> m[k][ps[i]] == rat_zero()
    &&& forall|i: int, q: int| 0 <= i < r && 0 <= q < ps[i] ==> #[trigger] m[i][q] == rat_zero()
    &&& forall|i: int, q: int|
        r <= i < m.len() && 0 <= q < p ==> #[trigger] m[i][q] == rat_zero()
}

/// A matrix whose bookkeeping says every remaining pivot chance is spent
/// is in reduced row-echelon form.
proof fn lemma_elim_inv_rref(m: Seq<Seq<Rat>>, r: int, p: int, cols: int, ps: Seq<int>)
    requires
        0 <= r <= m.len(),
        0 <= p <= cols,
        elim_inv(m, r, p, cols, ps),
        forall|i: int, q: int|
            r <= i < m.len() && 0 <= q < cols ==> #[trigger] m[i][q] == rat_zero(),
    ensures
        is_rref(m, cols),
{
    assert forall|i: int| r <= i < m.len() implies row_is_zero(#[trigger] m[i]) by {}
    assert forall|i: int| 0 <= i < r implies !row_is_zero(#[trigger] m[i]) && lead_col(
        m[i],
        0,
    ) == ps[i] by {
        assert(m[i][ps[i]] == rat_one());
        lemma_lead_col_at(m[i], ps[i]);
    }
    assert forall|i: int|
        0 <= i < m.len() && !row_is_zero(#[trigger] m[i]) implies {
        let q = lead_col(m[i], 0);
        &&& q < cols
        &&& m[i][q] == rat_one()
        &&& forall|k: int| 0 <= k < m.len() && k != i ==> (#[trigger] m[k][q]).n == 0
    } by {
        assert(i < r);
        assert(lead_col(m[i], 0) == ps[i]);
        assert forall|k: int|
            0 <= k < m.len() && k != i implies (#[trigger] m[k][ps[i]]).n == 0 by {
            assert(m[k][ps[i]] == rat_zero());
        }
    }
}

/// One elimination round from a consistent bookkeeping state ends in
/// reduced row-echelon form, with the same shape and entries still in
/// lowest terms.
proof fn lemma_rref_shape_from(
    m: Seq<Seq<Rat>>,
    r: int,
    p: int,
    rows: int,
    cols: int,
    ps: Seq<int>,
)
    requires
        rows == m.len(),
        0 <= r <= rows,
        0 <= p <= cols,
        elim_inv(m, r, p, cols, ps),
    ensures
        ({
            let e = rref_from(m, r, p, rows, cols);
            &&& e.len() == rows
            &&& mat_rect(e, cols)
            &&& mat_canon(e)
            &&& is_rref(e, cols)
        }),
    decreases rows - r,
{
    if r >= rows {
        lemma_elim_inv_rref(m, r, p, cols, ps);
    } else if p >= cols {
        lemma_elim_inv_rref(m, r, p, cols, ps);
    } else {
        match find_pivot(m, r, p, cols) {
            None => {
                lemma_find_pivot_none_inv(m, r, p, cols);
                assert forall|i: int, q: int|
                    r <= i < rows && 0 <= q < cols implies #[trigger] m[i][q]
                    == rat_zero() by {
                    if q < p {
                    } else {
                        assert(m[i][q].n == 0);
                        lemma_canon_zero(m[i][q]);
                    }
                }
                lemma_elim_inv_rref(m, r, p, cols, ps);
            },
            Some(pi) => {
                let (p2, krow) = pi;
                lemma_find_pivot_some(m, r, p, cols, pi);
                lemma_find_pivot_some_cols(m, r, p, cols, pi);
                let d = m[krow][p2];
                assert(d.n != 0);
                let m1 = swap_rows_spec(m, r, krow);
                assert forall|i: int|
                    0 <= i < rows implies #[trigger] m1[i] == (if i == r {
                    m[krow]
                } else if i == krow {
                    m[r]
                } else {
                    m[i]
                }) by {}
                assert(m1.len() == rows);
                let m2 = scale_row_spec(m1, r, d);
                assert(m1[r][p2] == d);
                assert(m2.len() == rows);
                assert(m2[r].len() == cols);
                assert forall|j: int| 0 <= j < cols implies #[trigger] m2[r][j] == ndiv(
                    m1[r][j],
                    d,
                ) by {}
                assert forall|i: int| 0 <= i < rows && i != r implies #[trigger] m2[i]
                    == m1[i] by {}
                // the scaled pivot row: entries reduced, pivot exactly one,
                // zeros left of the pivot column stay exact zeros
                assert forall|j: int| 0 <= j < cols implies rat_wf(#[trigger] m2[r][j])
                    && rat_canon(m2[r][j]) by {
                    assert(rat_wf(m1[r][j]));
                    if d.n >= 0 {
                        assert(rdiv(m1[r][j], d).d == m1[r][j].d * d.n);
                        assert(m1[r][j].d * d.n > 0) by (nonlinear_arith)
                            requires
                                m1[r][j].d > 0,
                                d.n > 0,
                        ;
                    } else {
                        assert(rdiv(m1[r][j], d).d == -(m1[r][j].d * d.n));
                        assert(-(m1[r][j].d * d.n) > 0) by (nonlinear_arith)
                            requires
                                m1[r][j].d > 0,
                                d.n < 0,
                        ;
                    }
                    lemma_rnorm_idem(rdiv(m1[r][j], d));
                }
                assert(m2[r][p2] == rat_one()) by {
                    lemma_ndiv_self(d);
                }
                assert forall|q: int| 0 <= q < p2 implies #[trigger] m2[r][q]
                    == rat_zero() by {
                    assert(m1[r][q] == m[krow][q]);
                    if q < p {
                        assert(m[krow][q] == rat_zero());
                    } else {
                        assert(m[krow][q].n == 0);
                        lemma_canon_zero(m[krow][q]);
                    }
                    crate::rational::lemma_ndiv_zero(d);
                }
                let m3 = eliminate_spec(m2, r, p2);
                assert(m3.len() == rows);
                assert(m3[r] == m2[r]);
                assert forall|i: int, j: int|
                    0 <= i < rows && i != r && 0 <= j < cols implies #[trigger] m3[i][j]
                    == nsub(m2[i][j], nmul(m2[i][p2], m2[r][j])) by {}
                assert(mat_rect(m3, cols)) by {
                    assert forall|i: int| 0 <= i < rows implies (#[trigger] m3[i]).len()
                        == cols by {}
                }
                assert(mat_canon(m3)) by {
                    assert forall|i: int, j: int|
                        0 <= i < m3.len() && 0 <= j < m3[i].len() implies rat_wf(
                        #[trigger] m3[i][j],
                    ) && rat_canon(m3[i][j]) by {
                        if i != r {
                            lemma_nop_wf(m2[i][p2], m2[r][j]);
                            lemma_nop_wf(m2[i][j], nmul(m2[i][p2], m2[r][j]));
                            lemma_rnorm_idem(
                                crate::rational::rsub(
                                    m2[i][j],
                                    nmul(m2[i][p2], m2[r][j]),
                                ),
                            );
                        }
                    }
                }
                // a zero entry in the eliminating row leaves a column untouched
                assert forall|i: int, j: int|
                    0 <= i < rows && i != r && 0 <= j < cols && m2[r][j] == rat_zero()
                    implies #[trigger] m3[i][j] == m2[i][j] by {
                    lemma_nmul_zero(m2[i][p2]);
                    lemma_zero_neutral(m2[i][j]);
                }
                // the pivot column is cleared everywhere else
                assert forall|i: int|
                    0 <= i < rows && i != r implies #[trigger] m3[i][p2] == rat_zero() by {
                    lemma_one_neutral(m2[i][p2]);
                    crate::rational::lemma_nsub_self(m2[i][p2]);
                }
                let ps2 = ps.push(p2);
                assert(elim_inv(m3, r + 1, p2 + 1, cols, ps2)) by {
                    assert(ps2.len() == r + 1);
                    assert(ps2[r as int] == p2);
                    assert(forall|i: int| 0 <= i < r ==> ps2[i] == ps[i]);
                    // old pivot columns: still a lone one in row i
                    assert forall|i: int| 0 <= i < r + 1 implies m3[i][#[trigger] ps2[i]]
                        == rat_one() by {
                        if i < r {
                            assert(m2[r][ps[i]] == rat_zero()) by {
                                assert(m1[r][ps[i]] == m[krow][ps[i]]);
                                assert(m[krow][ps[i]] == rat_zero());
                                crate::rational::lemma_ndiv_zero(d);
                            }
                            assert(m2[i][ps[i]] == m1[i][ps[i]]);
                            assert(m1[i][ps[i]] == m[i][ps[i]]) by {
                                assert(i != r);
                                if i == krow {
                                    assert(krow >= r);
                                }
                            }
                            assert(m3[i][ps[i]] == m2[i][ps[i]]);
                        }
                    }
                    assert forall|i: int, k: int|
                        #![trigger m3[k][ps2[i]]]
                        0 <= i < r + 1 && 0 <= k < rows && k != i implies m3[k][ps2[i]]
                        == rat_zero() by {
                        if i < r {
                            assert(m2[r][ps[i]] == rat_zero()) by {
                                assert(m1[r][ps[i]] == m[krow][ps[i]]);
                                crate::rational::lemma_ndiv_zero(d);
                            }
                            if k == r {
                            } else {
                                assert(m2[k][ps[i]] == m1[k][ps[i]]);
                                assert(m1[k][ps[i]] == rat_zero()) by {
                                    if k == krow {
                                        assert(m1[k][ps[i]] == m[r][ps[i]]);
                                    } else {
                                        assert(m1[k][ps[i]] == m[k][ps[i]]);
                                    }
                                }
                                assert(m3[k][ps[i]] == m2[k][ps[i]]);
                            }
                        } else {
                            assert(ps2[i] == p2);
                        }
                    }
                    // zeros left of each pivot column
                    assert forall|i: int, q: int|
                        0 <= i < r + 1 && 0 <= q < ps2[i] implies #[trigger] m3[i][q]
                        == rat_zero() by {
                        if i < r {
                            assert(m2[r][q] == rat_zero()) by {
                                assert(q < ps[i] && ps[i] < p);
                                assert(m1[r][q] == m[krow][q]);
                                assert(m[krow][q] == rat_zero());
                                crate::rational::lemma_ndiv_zero(d);
                            }
                            assert(m2[i][q] == m1[i][q]);
                            assert(m1[i][q] == m[i][q]);
                            assert(m3[i][q] == m2[i][q]);
                        } else {
                            assert(m3[r as int][q] == m2[r as int][q]);
                        }
                    }
                    // zeros left of the new cursor in the rows below
                    assert forall|i: int, q: int|
                        r + 1 <= i < rows && 0 <= q < p2 + 1 implies #[trigger] m3[i][q]
                        == rat_zero() by {
                        if q == p2 {
                        } else {
                            assert(m2[r][q] == rat_zero());
                            assert(m2[i][q] == m1[i][q]);
                            assert(m1[i][q] == rat_zero()) by {
                                if i == krow {
                                    if q < p {
                                        assert(m[r][q] == rat_zero());
                                    } else {
                                        assert(m[r][q].n == 0);
                                        lemma_canon_zero(m[r][q]);
                                    }
                                } else {
                                    if q < p {
                                        assert(m[i][q] == rat_zero());
                                    } else {
                                        assert(m[i][q].n == 0);
                                        lemma_canon_zero(m[i][q]);
                                    }
                                }
                            }
                            assert(m3[i][q] == m2[i][q]);
                        }
                    }
                }
                lemma_rref_shape_from(m3, r + 1, p2 + 1, rows, cols, ps2);
            },
        }
    }
}

/// The law that reduction always lands in reduced row-echelon form.
pub proof fn lemma_rref_shape(m: Seq<Seq<Rat>>, cols: int)
    requires
        0 <= cols,
        mat_rect(m, cols),
        mat_canon(m),
    ensures
        rref_spec(m, cols).len() == m.len(),
        mat_rect(rref_spec(m, cols), cols),
        mat_canon(rref_spec(m, cols)),
        is_rref(rref_spec(m, cols), cols),
{
    lemma_rref_shape_from(m, 0, 0, m.len() as int, cols, Seq::empty());
}

/// The law that reduction is idempotent: reducing a reduced matrix gives
/// it back unchanged, whatever the matrix.
pub proof fn lemma_row_echelon_idempotent(m: Seq<Seq<Rat>>, cols: int)
    requires
        0 <= cols,
        mat_rect(m, cols),
        mat_canon(m),
    ensures
        rref_spec(rref_spec(m, cols), cols) == rref_spec(m, cols),
{
    lemma_rref_shape(m, cols);
    lemma_rref_fixed_point(rref_spec(m, cols), cols);
}

/// One round of elimination does nothing to a matrix in reduced
/// row-echelon form, from any row and cursor consistent with its leading
/// columns.
proof fn lemma_rref_fixed_from(m: Seq<Seq<Rat>>, r: int, p: int, rows: int, cols: int)
    requires
        rows == m.len(),
        0 <= r <= rows,
        0 <= p <= cols,
        mat_rect(m, cols),
        mat_canon(m),
        is_rref(m, cols),
        forall|i: int|
            r <= i < rows && !row_is_zero(#[trigger] m[i]) ==> lead_col(m[i], 0) >= p,
    ensures
        rref_from(m, r, p, rows, cols) == m,
    decreases rows - r,
{
    if r >= rows || p >= cols {
    } else if row_is_zero(m[r]) {
        assert forall|q: int, i: int|
            p <= q < cols && r <= i < m.len() implies (#[trigger] m[i][q]).n == 0 by {
            if !row_is_zero(m[i]) {
                assert(r < i);
                assert(row_is_zero(m[r]) && !row_is_zero(m[i]));
            }
        }
        lemma_find_pivot_none(m, r, p, cols);
    } else {
        let pr = lead_col(m[r], 0);
        lemma_lead_col(m[r], 0);
        assert(p <= pr < cols);
        assert(m[r][pr] == rat_one());
        assert forall|q: int, i: int|
            p <= q < pr && r <= i < m.len() implies (#[trigger] m[i][q]).n == 0 by {
            if row_is_zero(m[i]) {
            } else {
                lemma_lead_col(m[i], 0);
                if i == r {
                } else {
                    assert(lead_col(m[i], 0) > pr);
                }
            }
        }
        lemma_find_pivot_at(m, r, p, pr, cols);
        let m1 = swap_rows_spec(m, r, r);
        assert(m1 =~= m);
        let m2 = scale_row_spec(m1, r, m1[r][pr]);
        assert forall|j: int| 0 <= j < m[r].len() implies ndiv(m[r][j], rat_one())
            == m[r][j] by {
            lemma_one_neutral(m[r][j]);
        }
        assert(m2[r] =~= m[r]);
        assert(m2 =~~= m);
        let m3 = eliminate_spec(m2, r, pr);
        assert forall|i: int| 0 <= i < rows implies m3[i] =~= m[i] by {
            if i != r {
                assert(m[i][pr].n == 0);
                lemma_canon_zero(m[i][pr]);
                assert forall|j: int| 0 <= j < m[i].len() implies nsub(
                    m[i][j],
                    nmul(m[i][pr], m[r][j]),
                ) == m[i][j] by {
                    lemma_nmul_zero(m[r][j]);
                    lemma_zero_neutral(m[i][j]);
                }
            }
        }
        assert(m3 =~~= m);
        assert forall|i: int|
            r + 1 <= i < rows && !row_is_zero(#[trigger] m[i]) implies lead_col(m[i], 0) >= pr
            + 1 by {
            assert(lead_col(m[r], 0) < lead_col(m[i], 0));
        }
        lemma_rref_fixed_from(m, r + 1, pr + 1, rows, cols);
    }
}

/// Reducing a matrix already in reduced row-echelon form gives it back
/// unchanged: on such matrices, reduction is idempotent.
pub proof fn lemma_rref_fixed_point(m: Seq<Seq<Rat>>, cols: int)
    requires
        0 <= cols,
        mat_rect(m, cols),
        mat_canon(m),
        is_rref(m, cols),
    ensures
        rref_spec(m, cols) == m,
{
    assert forall|i: int|
        0 <= i < m.len() && !row_is_zero(#[trigger] m[i]) implies lead_col(m[i], 0) >= 0 by {
        lemma_lead_col(m[i], 0);
    }
    lemma_rref_fixed_from(m, 0, 0, m.len() as int, cols);
}

/// The first nonzero entry of a row that denotes zero before `p` and not
/// at `p` sits at `p`.
proof fn lemma_lead_col_at(row: Seq<Rat>, p: int)
    requires
        0 <= p < row.len(),
        forall|q: int| 0 <= q < p ==> (#[trigger] row[q]).n == 0,
        row[p].n != 0,
    ensures
        lead_col(row, 0) == p,
{
    lemma_lead_col(row, 0);
    let l = lead_col(row, 0);
    if l < p {
        assert(row[l].n == 0);
    }
    if l > p {
        assert(row[p].n == 0);
    }
}

/// The identity matrix is rectangular, holds only scalars, and is in
/// reduced row-echelon form with leading column `i` in row `i`.
pub proof fn lemma_identity_is_rref(n: int)
    requires
        0 <= n,
    ensures
        mat_rect(identity_spec(n), n),
        mat_vals_ok(identity_spec(n)),
        is_rref(identity_spec(n), n),
        forall|i: int|
            0 <= i < n ==> !row_is_zero(#[trigger] identity_spec(n)[i]) && lead_col(
                identity_spec(n)[i],
                0,
            ) == i,
{
    let m = identity_spec(n);
    lemma_zero_one_ok();
    assert forall|i: int|
        0 <= i < n implies !row_is_zero(#[trigger] m[i]) && lead_col(m[i], 0) == i by {
        assert(m[i][i] == rat_one());
        lemma_lead_col_at(m[i], i);
    }
}

/// The law that reduction leaves the identity matrix as it stands, so its
/// rank is its full row count.
pub proof fn lemma_rank_identity(n: int)
    requires
        0 <= n,
    ensures
        rref_spec(identity_spec(n), n) == identity_spec(n),
        count_nonzero_rows(rref_spec(identity_spec(n), n), n) == n,
{
    lemma_identity_is_rref(n);
    lemma_vals_ok_canon(identity_spec(n));
    lemma_rref_fixed_point(identity_spec(n), n);
    lemma_count_identity(n, n);
}

/// The first `k` rows of the identity matrix are all nonzero rows.
proof fn lemma_count_identity(n: int, k: int)
    requires
        0 <= k <= n,
    ensures
        count_nonzero_rows(identity_spec(n), k) == k,
    decreases k,
{
    if k > 0 {
        lemma_identity_is_rref(n);
        lemma_count_identity(n, k - 1);
    }
}

/// The all-zero matrix is rectangular, holds only scalars, and is in
/// reduced row-echelon form.
pub proof fn lemma_zeros_is_rref(rows: int, cols: int)
    requires
        0 <= rows,
        0 <= cols,
    ensures
        mat_rect(zeros_spec(rows, cols), cols),
        mat_vals_ok(zeros_spec(rows, cols)),
        is_rref(zeros_spec(rows, cols), cols),
        forall|i: int| 0 <= i < rows ==> row_is_zero(#[trigger] zeros_spec(rows, cols)[i]),
{
    lemma_zero_one_ok();
}

/// The law that reduction leaves the all-zero matrix as it stands, so its
/// rank is zero.
pub proof fn lemma_rank_zeros(rows: int, cols: int)
    requires
        0 <= rows,
        0 <= cols,
    ensures
        rref_spec(zeros_spec(rows, cols), cols) == zeros_spec(rows, cols),
        count_nonzero_rows(rref_spec(zeros_spec(rows, cols), cols), rows) == 0,
{
    lemma_zeros_is_rref(rows, cols);
    lemma_vals_ok_canon(zeros_spec(rows, cols));
    lemma_rref_fixed_point(zeros_spec(rows, cols), cols);
    lemma_count_zeros(rows, cols, rows);
}

/// The first `k` rows of the all-zero matrix are all zero rows.
proof fn lemma_count_zeros(rows: int, cols: int, k: int)
    requires
        0 <= cols,
        0 <= k <= rows,
    ensures
        count_nonzero_rows(zeros_spec(rows, cols), k) == 0,
    decreases k,
{
    if k > 0 {
        lemma_zeros_is_rref(rows, cols);
        lemma_count_zeros(rows, cols, k - 1);
    }
}

/// The determinant of a three-row matrix of well-formed fractions is
/// well-formed.
proof fn lemma_det3_wf(m: Seq<Seq<Rat>>)
    requires
        m.len() == 3,
        mat_rect(m, 3),
        forall|i: int, j: int| 0 <= i < 3 && 0 <= j < 3 ==> rat_wf(#[trigger] m[i][j]),
    ensures
        rat_wf(det3_spec(m)),
{
    lemma_nop_wf(m[1][1], m[2][2]);
    lemma_nop_wf(m[1][2], m[2][1]);
    lemma_nop_wf(nmul(m[1][1], m[2][2]), nmul(m[1][2], m[2][1]));
    lemma_nop_wf(m[0][0], nsub(nmul(m[1][1], m[2][2]), nmul(m[1][2], m[2][1])));
    lemma_nop_wf(m[1][0], m[2][2]);
    lemma_nop_wf(m[1][2], m[2][0]);
    lemma_nop_wf(nmul(m[1][0], m[2][2]), nmul(m[1][2], m[2][0]));
    lemma_nop_wf(m[0][1], nsub(nmul(m[1][0], m[2][2]), nmul(m[1][2], m[2][0])));
    lemma_nop_wf(m[1][0], m[2][1]);
    lemma_nop_wf(m[1][1], m[2][0]);
    lemma_nop_wf(nmul(m[1][0], m[2][1]), nmul(m[1][1], m[2][0]));
    lemma_nop_wf(m[0][2], nsub(nmul(m[1][0], m[2][1]), nmul(m[1][1], m[2][0])));
    let t1 = nmul(m[0][0], nsub(nmul(m[1][1], m[2][2]), nmul(m[1][2], m[2][1])));
    let t2 = nmul(m[0][1], nsub(nmul(m[1][0], m[2][2]), nmul(m[1][2], m[2][0])));
    let t3 = nmul(m[0][2], nsub(nmul(m[1][0], m[2][1]), nmul(m[1][1], m[2][0])));
    lemma_nop_wf(t1, t2);
    lemma_nop_wf(nsub(t1, t2), t3);
}

/// The law that the determinant of the identity matrix is one, at each
/// supported size.
pub proof fn lemma_det_identity()
    ensures
        det_spec(identity_spec(1)) == rat_one(),
        det_spec(identity_spec(2)) == rat_one(),
        det_spec(identity_spec(3)) == rat_one(),
        det_spec(identity_spec(4)) == rat_one(),
{
    lemma_zero_one_ok();
    let one = rat_one();
    let zero = rat_zero();
    lemma_one_neutral(one);
    lemma_nmul_zero(zero);
    lemma_nmul_zero(one);
    lemma_zero_neutral(one);
    lemma_zero_neutral(zero);
    assert(det_spec(identity_spec(1)) == one);
    let m2 = identity_spec(2);
    assert(det2_spec(m2) == nsub(nmul(one, one), nmul(zero, zero)));
    assert(det_spec(m2) == one);
    let m3 = identity_spec(3);
    assert(det3_spec(m3) == one) by {
        assert(nmul(m3[1][1], m3[2][2]) == one);
        assert(nmul(m3[1][2], m3[2][1]) == zero);
        assert(nsub(one, zero) == one);
        assert(nmul(m3[0][0], one) == one);
        assert(nmul(m3[1][0], m3[2][2]) == zero);
        assert(nmul(m3[1][2], m3[2][0]) == zero);
        assert(nsub(zero, zero) == zero);
        assert(nmul(m3[0][1], zero) == zero);
        assert(nmul(m3[1][0], m3[2][1]) == zero);
        assert(nmul(m3[1][1], m3[2][0]) == zero);
        assert(nmul(m3[0][2], zero) == zero);
        assert(nadd(nsub(one, zero), zero) == one);
    }
    let m4 = identity_spec(4);
    assert(minor_spec(m4, 0, 0) =~~= identity_spec(3));
    assert(det4_term(m4, 0) == one) by {
        assert(sign_spec(0) == one);
        assert(m4[0][0] == one);
        assert(nmul(one, one) == one);
        assert(det3_spec(minor_spec(m4, 0, 0)) == one);
    }
    assert forall|i: int| 1 <= i < 4 implies #[trigger] det4_term(m4, i) == zero by {
        let mi = minor_spec(m4, 0, i);
        assert(m4[0][i] == zero);
        assert(rat_wf(sign_spec(i)));
        assert(nmul(sign_spec(i), zero) == zero) by {
            lemma_nmul_zero(sign_spec(i));
        }
        assert(mi.len() == 3 && mat_rect(mi, 3)) by {
            assert forall|a: int| 0 <= a < 3 implies (#[trigger] mi[a]).len() == 3 by {}
        }
        assert(rat_wf(det3_spec(mi))) by {
            assert forall|a: int, b: int|
                0 <= a < 3 && 0 <= b < 3 implies rat_wf(#[trigger] mi[a][b]) by {}
            lemma_det3_wf(mi);
        }
        lemma_nmul_zero(det3_spec(mi));
    }
    assert(det4_sum(m4, 0) == zero);
    assert(det4_sum(m4, 1) == nadd(zero, det4_term(m4, 0)));
    assert(det4_sum(m4, 1) == one);
    assert(det4_sum(m4, 2) == nadd(one, zero));
    assert(det4_sum(m4, 3) == nadd(one, zero));
    assert(det4_sum(m4, 4) == nadd(one, zero));
    assert(det_spec(m4) == one);
}

/// The inverse of a one-row matrix, as a row of fractions.
pub open spec fn inv1_spec(m: Seq<Seq<Rat>>) -> Seq<Seq<Rat>> {
    Seq::new(1nat, |i: int| Seq::new(1nat, |j: int| inv_entry_spec(m, i, j)))
}

/// The law that an invertible one-row matrix times its inverse denotes
/// the identity, and that inverting the inverse denotes the matrix again.
pub proof fn lemma_inverse_one_row(m: Seq<Seq<Rat>>)
    requires
        m.len() == 1,
        mat_rect(m, 1),
        mat_vals_ok(m),
        det_spec(m).n != 0,
    ensures
        rat_eq(dot_spec(m[0], col_spec(inv1_spec(m), 0), 1), rat_one()),
        rat_eq(inv_entry_spec(inv1_spec(m), 0, 0), m[0][0]),
{
    let a = m[0][0];
    assert(rat_ok(a));
    assert(det_spec(m) == a);
    lemma_zero_one_ok();
    let one = rat_one();
    lemma_one_neutral(one);
    let i00 = inv_entry_spec(m, 0, 0);
    assert(minor_det_spec(m, 0, 0) == one);
    assert(i00 == ndiv(one, a));
    let q = rdiv(one, a);
    if a.n >= 0 {
        assert(q == Rat { n: a.d, d: a.n });
    } else {
        assert(q == Rat { n: -a.d, d: -a.n });
    }
    assert(rat_wf(q));
    lemma_rnorm_eq(q);
    assert(i00 == rnorm(q));
    assert(rat_eq(i00, q));
    let inv = inv1_spec(m);
    assert(col_spec(inv, 0)[0] == i00);
    assert(rat_wf(i00)) by {
        crate::rational::lemma_rnorm(q);
    }
    let p = rmul(a, i00);
    assert(rat_wf(p)) by {
        assert(a.d * i00.d > 0) by (nonlinear_arith)
            requires
                a.d > 0,
                i00.d > 0,
        ;
    }
    let x = nmul(a, i00);
    assert(dot_spec(m[0], col_spec(inv, 0), 0) == rat_zero());
    assert(dot_spec(m[0], col_spec(inv, 0), 1) == nadd(rat_zero(), x));
    lemma_rnorm_idem(p);
    lemma_zero_neutral(x);
    assert(nadd(rat_zero(), x) == x);
    lemma_rnorm_eq(p);
    lemma_rmul_congr(a, i00, q);
    assert(rat_eq(rmul(a, q), one)) by (nonlinear_arith)
        requires
            a.d > 0,
            a.n != 0,
            rmul(a, q) == (if a.n >= 0 {
                Rat { n: a.n * a.d, d: a.d * a.n }
            } else {
                Rat { n: a.n * -a.d, d: a.d * -a.n }
            }),
            one == (Rat { n: 1, d: 1 }),
            rat_eq(rmul(a, q), one) == (rmul(a, q).n * 1 == 1 * rmul(a, q).d),
    ;
    lemma_rat_eq_trans(x, p, rmul(a, q));
    assert(rat_wf(rmul(a, q))) by {
        assert(a.d * q.d > 0) by (nonlinear_arith)
            requires
                a.d > 0,
                q.d > 0,
        ;
    }
    lemma_rat_eq_trans(x, rmul(a, q), one);
    assert(rat_eq(dot_spec(m[0], col_spec(inv, 0), 1), one));
    assert(i00.n != 0) by {
        if i00.n == 0 {
            assert(i00.n * q.d == q.n * i00.d);
            assert(q.n != 0);
            assert(0 * q.d == 0) by (nonlinear_arith);
            assert(q.n * i00.d != 0) by (nonlinear_arith)
                requires
                    q.n != 0,
                    i00.d > 0,
            ;
        }
    }
    assert(det_spec(inv) == i00);
    let b00 = inv_entry_spec(inv, 0, 0);
    assert(minor_det_spec(inv, 0, 0) == one);
    assert(b00 == ndiv(one, i00));
    let q2 = rdiv(one, i00);
    if i00.n >= 0 {
        assert(q2 == Rat { n: i00.d, d: i00.n });
    } else {
        assert(q2 == Rat { n: -i00.d, d: -i00.n });
    }
    assert(rat_wf(q2));
    assert(rat_eq(q2, a)) by {
        if a.n >= 0 {
            if i00.n >= 0 {
                assert(i00.d * a.d == a.n * i00.n) by (nonlinear_arith)
                    requires
                        i00.n * a.n == a.d * i00.d,
                ;
            } else {
                assert(false) by (nonlinear_arith)
                    requires
                        i00.n * a.n == a.d * i00.d,
                        i00.n < 0,
                        a.n > 0,
                        a.d > 0,
                        i00.d > 0,
                ;
            }
        } else {
            if i00.n >= 0 {
                assert(false) by (nonlinear_arith)
                    requires
                        i00.n * -a.n == -a.d * i00.d,
                        i00.n >= 0,
                        a.n < 0,
                        a.d > 0,
                        i00.d > 0,
                ;
            } else {
                assert(-i00.d * a.d == a.n * -i00.n) by (nonlinear_arith)
                    requires
                        i00.n * -a.n == -a.d * i00.d,
                ;
            }
        }
    }
    lemma_rnorm_eq(q2);
    assert(b00 == rnorm(q2));
    lemma_rat_eq_trans(b00, q2, a);
}

} // verus!
