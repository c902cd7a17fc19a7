//! Two laws of the determinant as the expansion computes it: transposing a
//! matrix keeps it, and exchanging two rows negates it.
use vstd::prelude::*;

use crate::laplace::lemma_row_expansion;
use crate::matrix::{
    alternating, column_term, column_terms, det, lemma_column_expansion_sum,
    lemma_det_single_row, minor, row_term, row_terms, width,
};
use crate::sums::{lemma_sum_ext, lemma_sum_split, sum};

verus! {

/// The transpose of the leading square of `m` (as many columns as rows).
pub open spec fn transpose(m: Seq<Seq<i64>>) -> Seq<Seq<i64>> {
    Seq::new(m.len(), |i: int| Seq::new(m.len(), |j: int| m[j][i]))
}

/// `m` with rows `i` and `j` exchanged.
pub open spec fn swap_rows(m: Seq<Seq<i64>>, i: int, j: int) -> Seq<Seq<i64>> {
    m.update(i, m[j]).update(j, m[i])
}

/// Every row has the length of row 0.
pub open spec fn rectangular(m: Seq<Seq<i64>>) -> bool {
    forall|r: int| 0 <= r < m.len() ==> #[trigger] m[r].len() == width(m)
}

// ---------------------------------------------------------------------------
// Transposing
// ---------------------------------------------------------------------------

proof fn lemma_transpose_minor(m: Seq<Seq<i64>>, i: int)
    requires
        2 <= m.len() <= width(m),
        0 <= i < m.len(),
    ensures
        minor(transpose(m), i, 0) == transpose(minor(m, 0, i)),
{
    let a = minor(transpose(m), i, 0);
    let b = transpose(minor(m, 0, i));
    assert(transpose(m)[0].len() == m.len());
    assert(a.len() == b.len());
    assert forall|x: int| 0 <= x < a.len() implies #[trigger] a[x] == b[x] by {
        assert(a[x] =~= b[x]);
    }
    assert(a =~= b);
}

/// Transposing keeps the determinant: for every matrix with at least one row
/// and at least as many entries in row 0, the transpose of its leading square
/// has the same determinant.
pub proof fn lemma_transpose_keeps_determinant(m: Seq<Seq<i64>>)
    requires
        1 <= m.len() <= width(m),
    ensures
        det(transpose(m)) == det(m),
    decreases m.len(),
{
    let n = m.len() as int;
    let t = transpose(m);
    if n == 1 {
        lemma_det_single_row(m);
        lemma_det_single_row(t);
    } else {
        lemma_column_expansion_sum(t, n);
        assert forall|i: int| 0 <= i < n implies #[trigger] column_terms(t)(i) == row_terms(m)(i) by {
            lemma_transpose_minor(m, i);
            let s = minor(m, 0, i);
            assert(s.len() == n - 1);
            assert(s[0].len() == width(m) - 1);
            lemma_transpose_keeps_determinant(s);
        }
        lemma_sum_ext(column_terms(t), row_terms(m), 0, n);
        lemma_row_expansion(m);
    }
}

// ---------------------------------------------------------------------------
// Exchanging rows
// ---------------------------------------------------------------------------

proof fn lemma_swap_shape(m: Seq<Seq<i64>>, i: int, j: int)
    requires
        rectangular(m),
        0 <= i < m.len(),
        0 <= j < m.len(),
    ensures
        swap_rows(m, i, j).len() == m.len(),
        width(swap_rows(m, i, j)) == width(m),
        rectangular(swap_rows(m, i, j)),
{
    let s = swap_rows(m, i, j);
    assert(s[0].len() == width(m));
    assert forall|r: int| 0 <= r < s.len() implies #[trigger] s[r].len() == width(s) by {}
}

proof fn lemma_minor_rectangular(m: Seq<Seq<i64>>, k: int)
    requires
        0 <= k < m.len(),
        m.len() >= 2,
    ensures
        rectangular(minor(m, k, 0)),
        minor(m, k, 0).len() == m.len() - 1,
{
    let s = minor(m, k, 0);
    assert(s[0].len() == width(s));
    assert forall|r: int| 0 <= r < s.len() implies #[trigger] s[r].len() == width(s) by {}
}

/// Exchanging rows `i` and `i + 1` negates the determinant.
proof fn lemma_adjacent_swap(m: Seq<Seq<i64>>, i: int)
    requires
        rectangular(m),
        m.len() >= 2,
        0 <= i,
        i + 1 < m.len(),
    ensures
        det(swap_rows(m, i, i + 1)) == -det(m),
    decreases m.len(),
{
    let n = m.len() as int;
    let s = swap_rows(m, i, i + 1);
    lemma_swap_shape(m, i, i + 1);
    let g = |k: int| -column_term(m, k);
    // The terms of rows other than i and i + 1.
    assert forall|k: int| 0 <= k < n && k != i && k != i + 1 implies #[trigger] column_terms(s)(k)
        == g(k) by {
        let ip = if k < i {
            i - 1
        } else {
            i
        };
        let ms = minor(m, k, 0);
        lemma_minor_rectangular(m, k);
        let a = minor(s, k, 0);
        let b = swap_rows(ms, ip, ip + 1);
        assert(a.len() == b.len());
        assert forall|x: int| 0 <= x < a.len() implies #[trigger] a[x] == b[x] by {
            assert(a[x] =~= b[x]);
        }
        assert(a =~= b);
        lemma_adjacent_swap(ms, ip);
        assert(s[k][0] == m[k][0]);
        assert(alternating(k) * m[k][0] * (-det(ms)) == -(alternating(k) * m[k][0] * det(ms)))
            by (nonlinear_arith);
    }
    // Rows i and i + 1 trade their terms.
    assert(column_terms(s)(i) == g(i + 1)) by {
        let a = minor(s, i, 0);
        let b = minor(m, i + 1, 0);
        assert(a.len() == b.len());
        assert forall|x: int| 0 <= x < a.len() implies #[trigger] a[x] == b[x] by {
            assert(a[x] =~= b[x]);
        }
        assert(a =~= b);
        assert(alternating(i) == -alternating(i + 1));
        assert(alternating(i) * m[i + 1][0] * det(b) == -(alternating(i + 1) * m[i + 1][0] * det(
            b,
        ))) by (nonlinear_arith)
            requires
                alternating(i) == -alternating(i + 1),
        ;
    }
    assert(column_terms(s)(i + 1) == g(i)) by {
        let a = minor(s, i + 1, 0);
        let b = minor(m, i, 0);
        assert(a.len() == b.len());
        assert forall|x: int| 0 <= x < a.len() implies #[trigger] a[x] == b[x] by {
            assert(a[x] =~= b[x]);
        }
        assert(a =~= b);
        assert(alternating(i + 1) == -alternating(i));
        assert(alternating(i + 1) * m[i][0] * det(b) == -(alternating(i) * m[i][0] * det(b)))
            by (nonlinear_arith)
            requires
                alternating(i + 1) == -alternating(i),
        ;
    }
    lemma_column_expansion_sum(s, n);
    lemma_column_expansion_sum(m, n);
    let fs = column_terms(s);
    let fm = column_terms(m);
    lemma_sum_split(fs, 0, i, n);
    lemma_sum_split(fs, i, i + 2, n);
    lemma_sum_split(g, 0, i, n);
    lemma_sum_split(g, i, i + 2, n);
    lemma_sum_ext(fs, g, 0, i);
    lemma_sum_ext(fs, g, i + 2, n);
    assert(sum(fs, i, i + 2) == fs(i) + fs(i + 1)) by {
        assert(sum(fs, i, i) == 0);
        assert(sum(fs, i, i + 1) == fs(i));
        assert(sum(fs, i, i + 2) == sum(fs, i, i + 1) + fs(i + 1));
    }
    assert(sum(g, i, i + 2) == g(i) + g(i + 1)) by {
        assert(sum(g, i, i) == 0);
        assert(sum(g, i, i + 1) == g(i));
        assert(sum(g, i, i + 2) == sum(g, i, i + 1) + g(i + 1));
    }
    lemma_sum_negate(fm, g, 0, n);
}

proof fn lemma_sum_negate(f: spec_fn(int) -> int, g: spec_fn(int) -> int, lo: int, hi: int)
    requires
        forall|k: int| lo <= k < hi ==> #[trigger] g(k) == -f(k),
    ensures
        sum(g, lo, hi) == -sum(f, lo, hi),
    decreases hi - lo,
{
    if hi > lo {
        lemma_sum_negate(f, g, lo, hi - 1);
    }
}

proof fn lemma_swap_ordered(m: Seq<Seq<i64>>, i: int, j: int)
    requires
        rectangular(m),
        0 <= i < j < m.len(),
    ensures
        det(swap_rows(m, i, j)) == -det(m),
    decreases j - i,
{
    if j == i + 1 {
        lemma_adjacent_swap(m, i);
    } else {
        let m1 = swap_rows(m, i, i + 1);
        lemma_swap_shape(m, i, i + 1);
        lemma_adjacent_swap(m, i);
        let m2 = swap_rows(m1, i + 1, j);
        lemma_swap_ordered(m1, i + 1, j);
        lemma_swap_shape(m1, i + 1, j);
        let m3 = swap_rows(m2, i, i + 1);
        lemma_adjacent_swap(m2, i);
        assert(m3 =~= swap_rows(m, i, j));
    }
}

/// Exchanging two different rows of a rectangular matrix negates its
/// determinant.
pub proof fn lemma_row_exchange_negates_determinant(m: Seq<Seq<i64>>, i: int, j: int)
    requires
        rectangular(m),
        0 <= i < m.len(),
        0 <= j < m.len(),
        i != j,
    ensures
        det(swap_rows(m, i, j)) == -det(m),
{
    if i < j {
        lemma_swap_ordered(m, i, j);
    } else {
        lemma_swap_ordered(m, j, i);
        assert(swap_rows(m, i, j) =~= swap_rows(m, j, i));
    }
}

} // verus!
