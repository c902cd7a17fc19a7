//! The expansion along the first row and the expansion along the first column
//! give the same determinant. This is what lets the work be split by columns
//! of row 0 (as `calculate_slice` does) and the parts be summed.
use vstd::prelude::*;

use crate::matrix::{
    alternating, column_term, column_terms, det, lemma_column_expansion_sum,
    lemma_det_single_row, lemma_minor_expandable, minor, row_term, row_terms, signed, slice_sum,
    width,
};
use crate::sums::{
    lemma_sum_ext, lemma_sum_first, lemma_sum_scale, lemma_sum_shift, lemma_sum_split,
    lemma_sum_swap, sum, sum_cols, sum_rows,
};

verus! {

/// Removing row `i` and column 0, then row 0 and the column that was `j`,
/// leaves what removing row 0 and column `j`, then the row that was `i` and
/// column 0, leaves.
pub proof fn lemma_minor_of_minor(m: Seq<Seq<i64>>, i: int, j: int)
    requires
        2 <= m.len() <= width(m),
        1 <= i < m.len(),
        1 <= j < width(m),
    ensures
        minor(minor(m, i, 0), 0, j - 1) == minor(minor(m, 0, j), i - 1, 0),
{
    lemma_minor_expandable(m, i, 0);
    lemma_minor_expandable(m, 0, j);
    let a = minor(minor(m, i, 0), 0, j - 1);
    let b = minor(minor(m, 0, j), i - 1, 0);
    assert(a.len() == b.len());
    assert forall|x: int| 0 <= x < a.len() implies #[trigger] a[x] == b[x] by {
        assert(a[x].len() == b[x].len());
        assert forall|y: int| 0 <= y < a[x].len() implies a[x][y] == b[x][y] by {}
        assert(a[x] =~= b[x]);
    }
    assert(a =~= b);
}

/// The term of the double expansion that pairs `m[i][0]` with `m[0][j]`.
pub open spec fn cross_term(m: Seq<Seq<i64>>, i: int, j: int) -> int {
    alternating(i) * alternating(j - 1) * m[i][0] * m[0][j] * det(minor(minor(m, i, 0), 0, j - 1))
}

/// All terms of the double expansion.
pub open spec fn cross_terms(m: Seq<Seq<i64>>) -> spec_fn(int, int) -> int {
    |i: int, j: int| cross_term(m, i, j)
}

proof fn lemma_regroup(a: int, b: int, c: int, d: int, e: int)
    ensures
        (a * c) * (b * d * e) == a * b * c * d * e,
        (b * d) * (a * c * e) == a * b * c * d * e,
{
    assert((a * c) * (b * d * e) == a * b * c * d * e) by (nonlinear_arith);
    assert((b * d) * (a * c * e) == a * b * c * d * e) by (nonlinear_arith);
}

proof fn lemma_alternating_step(k: int)
    ensures
        alternating(k - 1) == -alternating(k),
{
}

/// For `1 <= i < n`, term `i` of the first-column expansion is the sum of the
/// cross terms of row `i`, given the law for the smaller matrix.
proof fn lemma_column_term_splits(m: Seq<Seq<i64>>, i: int)
    requires
        2 <= m.len() <= width(m),
        1 <= i < m.len(),
        slice_sum(minor(m, i, 0), 0, m.len() - 1) == det(minor(m, i, 0)),
    ensures
        column_term(m, i) == sum(|j: int| cross_terms(m)(i, j), 1, m.len() as int),
{
    let n = m.len() as int;
    let a = minor(m, i, 0);
    lemma_minor_expandable(m, i, 0);
    let g = |j: int| row_terms(a)(j - 1);
    lemma_sum_shift(row_terms(a), g, 0, n - 1, 1);
    let c = alternating(i) * m[i][0];
    let h = |j: int| cross_terms(m)(i, j);
    assert forall|j: int| 1 <= j < n implies #[trigger] h(j) == c * g(j) by {
        assert(a[0][j - 1] == m[0][j]);
        lemma_regroup(
            alternating(i),
            alternating(j - 1),
            m[i][0] as int,
            m[0][j] as int,
            det(minor(a, 0, j - 1)),
        );
    }
    lemma_sum_scale(g, h, c, 1, n);
}

/// For `1 <= j < n`, term `j` of the first-row expansion is the sum of the
/// cross terms of column `j`.
proof fn lemma_row_term_splits(m: Seq<Seq<i64>>, j: int)
    requires
        2 <= m.len() <= width(m),
        1 <= j < m.len(),
    ensures
        row_term(m, j) == sum(|i: int| cross_terms(m)(i, j), 1, m.len() as int),
{
    let n = m.len() as int;
    let b = minor(m, 0, j);
    lemma_minor_expandable(m, 0, j);
    lemma_column_expansion_sum(b, n - 1);
    let g = |i: int| column_terms(b)(i - 1);
    lemma_sum_shift(column_terms(b), g, 0, n - 1, 1);
    let c = alternating(j) * m[0][j];
    let h = |i: int| cross_terms(m)(i, j);
    assert forall|i: int| 1 <= i < n implies #[trigger] h(i) == c * g(i) by {
        assert(b[i - 1][0] == m[i][0]);
        lemma_minor_of_minor(m, i, j);
        lemma_alternating_step(i);
        lemma_alternating_step(j);
        assert(alternating(j) * alternating(i - 1) == alternating(i) * alternating(j - 1))
            by (nonlinear_arith)
            requires
                alternating(i - 1) == -alternating(i),
                alternating(j - 1) == -alternating(j),
        ;
        lemma_regroup(
            alternating(i),
            alternating(j - 1),
            m[i][0] as int,
            m[0][j] as int,
            det(minor(b, i - 1, 0)),
        );
        assert((alternating(j) * m[0][j]) * (alternating(i - 1) * m[i][0] * det(
            minor(b, i - 1, 0),
        )) == alternating(j) * alternating(i - 1) * m[i][0] * m[0][j] * det(minor(b, i - 1, 0)))
            by (nonlinear_arith);
        assert(alternating(j) * alternating(i - 1) * m[i][0] * m[0][j] * det(minor(b, i - 1, 0))
            == alternating(i) * alternating(j - 1) * m[i][0] * m[0][j] * det(minor(b, i - 1, 0)))
            by (nonlinear_arith)
            requires
                alternating(j) * alternating(i - 1) == alternating(i) * alternating(j - 1),
        ;
    }
    lemma_sum_scale(g, h, c, 1, n);
}

/// Expanding along the first row gives the determinant: for every matrix
/// with at least one row and at least as many entries in row 0, the terms of
/// row 0 over the first `n` columns (`n` the number of rows) add up to the
/// expansion along the first column.
pub proof fn lemma_row_expansion(m: Seq<Seq<i64>>)
    requires
        1 <= m.len() <= width(m),
    ensures
        slice_sum(m, 0, m.len() as int) == det(m),
    decreases m.len(),
{
    let n = m.len() as int;
    if n == 1 {
        lemma_det_single_row(m);
        assert(minor(m, 0, 0).len() == 0);
        assert(row_terms(m)(0) == m[0][0]);
        assert(sum(row_terms(m), 0, 0) == 0);
    } else {
        assert forall|i: int| 1 <= i < n implies slice_sum(minor(m, i, 0), 0, n - 1) == det(
            #[trigger] minor(m, i, 0),
        ) by {
            lemma_minor_expandable(m, i, 0);
            lemma_row_expansion(minor(m, i, 0));
        }
        lemma_column_expansion_sum(m, n);
        lemma_sum_first(column_terms(m), 0, n);
        lemma_sum_first(row_terms(m), 0, n);
        let f = cross_terms(m);
        let rows = |i: int| sum(|j: int| f(i, j), 1, n);
        let cols = |j: int| sum(|i: int| f(i, j), 1, n);
        assert forall|i: int| 1 <= i < n implies #[trigger] column_terms(m)(i) == rows(i) by {
            lemma_column_term_splits(m, i);
        }
        assert forall|j: int| 1 <= j < n implies #[trigger] row_terms(m)(j) == cols(j) by {
            lemma_row_term_splits(m, j);
        }
        lemma_sum_ext(column_terms(m), rows, 1, n);
        lemma_sum_ext(row_terms(m), cols, 1, n);
        lemma_sum_swap(f, 1, n, 1, n);
        assert(sum_rows(f, 1, n, 1, n) == sum(rows, 1, n));
        assert(sum_cols(f, 1, n, 1, n) == sum(cols, 1, n));
    }
}

/// Consecutive slices of the first-row expansion add up to the slice that
/// spans them both.
pub proof fn lemma_slices_add(m: Seq<Seq<i64>>, start: int, mid: int, end: int)
    requires
        start <= mid <= end,
    ensures
        slice_sum(m, start, mid) + slice_sum(m, mid, end) == slice_sum(m, start, end),
{
    lemma_sum_split(row_terms(m), start, mid, end);
}

/// Splitting the columns `0..n` of row 0 at any `mid` and adding the two
/// slices gives the determinant, as the whole expansion along the first
/// column with coefficient 1 computes it.
pub proof fn lemma_split_slices_give_determinant(m: Seq<Seq<i64>>, mid: int)
    requires
        1 <= m.len() <= width(m),
        0 <= mid <= m.len(),
    ensures
        slice_sum(m, 0, mid) + slice_sum(m, mid, m.len() as int) == signed(1, true) * det(m),
{
    lemma_slices_add(m, 0, mid, m.len() as int);
    lemma_row_expansion(m);
}

} // verus!
