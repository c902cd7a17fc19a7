//! Matrices of `i64`, their minors, and the determinant by cofactor expansion.
use vstd::prelude::*;

use crate::sums::sum;

verus! {

// ---------------------------------------------------------------------------
// Model
// ---------------------------------------------------------------------------

/// The rows of a matrix, each as a sequence of entries.
pub open spec fn view_of(m: &Vec<Vec<i64>>) -> Seq<Seq<i64>> {
    m@.map_values(|r: Vec<i64>| r@)
}

/// `view_of` is vstd's deep view of the matrix, written out row by row.
pub proof fn lemma_view_of_is_deep_view(m: &Vec<Vec<i64>>)
    ensures
        view_of(m) == m.deep_view(),
{
    let a = view_of(m);
    let b = m.deep_view();
    assert(a.len() == b.len());
    assert forall|i: int| 0 <= i < a.len() implies #[trigger] a[i] == b[i] by {
        assert(a[i] =~= b[i]);
    }
    assert(a =~= b);
}

/// The number of columns that a minor is cut from: the length of row 0.
pub open spec fn width(m: Seq<Seq<i64>>) -> int {
    if m.len() == 0 {
        0
    } else {
        m[0].len() as int
    }
}

/// The index in the whole of the `i`-th position that remains once
/// position `removed` is taken out.
pub open spec fn skip_index(i: int, removed: int) -> int {
    if i < removed {
        i
    } else {
        i + 1
    }
}

/// How many of the positions `0..n` remain once position `removed` is taken
/// out (all of them when `removed` lies outside).
pub open spec fn count_without(n: int, removed: int) -> int {
    if 0 <= removed < n {
        n - 1
    } else {
        n
    }
}

/// The matrix without row `row` and column `col`, each remaining row cut to
/// the width of row 0.
pub open spec fn minor(m: Seq<Seq<i64>>, row: int, col: int) -> Seq<Seq<i64>> {
    Seq::new(
        count_without(m.len() as int, row) as nat,
        |i: int|
            Seq::new(
                count_without(width(m), col) as nat,
                |j: int| m[skip_index(i, row)][skip_index(j, col)],
            ),
    )
}

/// `+1` at even positions and `-1` at odd ones.
pub open spec fn alternating(i: int) -> int {
    if i % 2 == 0 {
        1
    } else {
        -1
    }
}

/// `c`, or its negation when `positive` is false.
pub open spec fn signed(c: int, positive: bool) -> int {
    if positive {
        c
    } else {
        -c
    }
}

/// The first `k` terms of the expansion of `m` along its first column:
/// `sum_{i < k} (-1)^i * m[i][0] * det(minor(m, i, 0))`.
pub open spec fn column_expansion(m: Seq<Seq<i64>>, k: int) -> int
    decreases m.len(), k,
{
    if k <= 0 || k > m.len() {
        0
    } else {
        let sub = minor(m, k - 1, 0);
        let sub_det = if sub.len() == 0 {
            1
        } else {
            column_expansion(sub, sub.len() as int)
        };
        column_expansion(m, k - 1) + alternating(k - 1) * m[k - 1][0] * sub_det
    }
}

/// The determinant, expanded along the first column; the matrix without rows
/// has determinant 1.
pub open spec fn det(m: Seq<Seq<i64>>) -> int {
    if m.len() == 0 {
        1
    } else {
        column_expansion(m, m.len() as int)
    }
}

/// Term `i` of the expansion along the first column.
pub open spec fn column_term(m: Seq<Seq<i64>>, i: int) -> int {
    alternating(i) * m[i][0] * det(minor(m, i, 0))
}

/// Term `j` of the expansion along the first row.
pub open spec fn row_term(m: Seq<Seq<i64>>, j: int) -> int {
    alternating(j) * m[0][j] * det(minor(m, 0, j))
}

/// Every row is at least as long as row 0.
pub open spec fn rows_reach_width(m: Seq<Seq<i64>>) -> bool {
    forall|r: int| 0 <= r < m.len() ==> #[trigger] m[r].len() >= width(m)
}

/// How many leading entries of a row a minor without column `col` reads,
/// when row 0 has `w` entries: all `w`, but the last is not read when it is
/// the column taken out.
pub open spec fn columns_read(w: int, col: int) -> int {
    if col == w - 1 {
        w - 1
    } else {
        w
    }
}

/// Every row but `except` has the entries that the minor without column
/// `col` reads.
pub open spec fn rows_cover(m: Seq<Seq<i64>>, except: int, col: int) -> bool {
    forall|r: int|
        0 <= r < m.len() && r != except ==> #[trigger] m[r].len() >= columns_read(width(m), col)
}

/// The shapes on which the cofactor expansion indexes only existing entries:
/// at least one row, row 0 at least as long as there are rows, and no row
/// shorter than row 0.
pub open spec fn expandable(m: Seq<Seq<i64>>) -> bool {
    &&& m.len() >= 1
    &&& width(m) >= m.len()
    &&& rows_reach_width(m)
}

/// The terms of the expansion along the first column.
pub open spec fn column_terms(m: Seq<Seq<i64>>) -> spec_fn(int) -> int {
    |i: int| column_term(m, i)
}

/// The terms of the expansion along the first row.
pub open spec fn row_terms(m: Seq<Seq<i64>>) -> spec_fn(int) -> int {
    |j: int| row_term(m, j)
}

/// Terms `start..end` of the expansion along the first row.
pub open spec fn slice_sum(m: Seq<Seq<i64>>, start: int, end: int) -> int {
    sum(row_terms(m), start, end)
}

/// Holds of the values that an `i64` can take.
pub open spec fn in_i64(x: int) -> bool {
    i64::MIN <= x <= i64::MAX
}

/// No step of `calculate_determinant(m, c, positive)` leaves the range of
/// `i64`: the negated coefficient, each recursive result, each product and
/// each partial sum.
pub open spec fn determinant_fits(m: Seq<Seq<i64>>, c: int, positive: bool) -> bool
    decreases m.len(),
{
    &&& in_i64(signed(c, positive))
    &&& if m.len() <= 1 {
        in_i64(m[0][0] * signed(c, positive))
    } else {
        forall|i: int|
            #![trigger minor(m, i, 0)]
            0 <= i < m.len() ==> {
                &&& determinant_fits(minor(m, i, 0), m[i][0] as int, i % 2 == 0)
                &&& in_i64(signed(c, positive) * column_term(m, i))
                &&& in_i64(signed(c, positive) * column_expansion(m, i + 1))
            }
    }
}

/// No step of `calculate_slice(m, start, end)` leaves the range of `i64`:
/// each determinant of a minor and each partial sum.
pub open spec fn slice_fits(m: Seq<Seq<i64>>, start: int, end: int) -> bool {
    forall|i: int|
        #![trigger minor(m, 0, i)]
        start <= i < end ==> {
            &&& determinant_fits(minor(m, 0, i), m[0][i] as int, i % 2 == 0)
            &&& in_i64(slice_sum(m, start, i + 1))
        }
}

/// The shapes on which `calculate_slice(m, start, end)` indexes only existing
/// entries: a non-empty range of columns of row 0, at least two rows and no
/// more rows than columns, and every row below row 0 long enough for each
/// minor that the slice takes.
pub open spec fn slice_shape(m: Seq<Seq<i64>>, start: int, end: int) -> bool {
    &&& start < end <= width(m)
    &&& 2 <= m.len() <= width(m)
    &&& forall|i: int| start <= i < end ==> #[trigger] rows_cover(m, 0, i)
}

// ---------------------------------------------------------------------------
// Facts about the model
// ---------------------------------------------------------------------------

/// The expansion along the first column, as a sum of its terms.
pub proof fn lemma_column_expansion_sum(m: Seq<Seq<i64>>, k: int)
    requires
        0 <= k <= m.len(),
    ensures
        column_expansion(m, k) == sum(column_terms(m), 0, k),
    decreases k,
{
    if k > 0 {
        lemma_column_expansion_sum(m, k - 1);
        assert(column_terms(m)(k - 1) == column_term(m, k - 1));
    }
}

/// A matrix of one row has its only expanded entry as determinant.
pub proof fn lemma_det_single_row(m: Seq<Seq<i64>>)
    requires
        m.len() == 1,
    ensures
        det(m) == m[0][0],
{
    assert(minor(m, 0, 0).len() == 0);
    assert(column_expansion(m, 0) == 0);
    assert(det(minor(m, 0, 0)) == 1);
}

/// A minor of a matrix with at least two rows, and at least as many entries
/// in row 0, is expandable, one row and one column smaller. (Its rows are
/// all of one length, whatever the lengths of the rows it is cut from.)
pub proof fn lemma_minor_expandable(m: Seq<Seq<i64>>, row: int, col: int)
    requires
        width(m) >= m.len(),
        m.len() >= 2,
        0 <= row < m.len(),
        0 <= col < width(m),
    ensures
        minor(m, row, col).len() == m.len() - 1,
        width(minor(m, row, col)) == width(m) - 1,
        expandable(minor(m, row, col)),
{
    let s = minor(m, row, col);
    assert(s[0].len() == width(m) - 1);
    assert forall|r: int| 0 <= r < s.len() implies #[trigger] s[r].len() >= width(s) by {}
}

// ---------------------------------------------------------------------------
// Minors
// ---------------------------------------------------------------------------

/// The matrix without row `row` and without column `col`. Each remaining row
/// is read up to the length of row 0. A `row` or `col` beyond the matrix
/// removes nothing.
pub fn select_minor(matrix: &Vec<Vec<i64>>, row: usize, col: usize) -> (new_matrix: Vec<Vec<i64>>)
    requires
        rows_cover(view_of(matrix), row as int, col as int),
    ensures
        view_of(&new_matrix) == minor(view_of(matrix), row as int, col as int),
{
    let ghost m = view_of(matrix);
    let ghost target = minor(m, row as int, col as int);
    let mut new_matrix: Vec<Vec<i64>> = Vec::new();
    let mut r: usize = 0;
    while r < matrix.len()
        invariant
            m == view_of(matrix),
            target == minor(m, row as int, col as int),
            rows_cover(m, row as int, col as int),
            r <= matrix.len(),
            new_matrix@.len() == count_without(r as int, row as int),
            forall|i: int|
                0 <= i < new_matrix@.len() ==> #[trigger] new_matrix@[i]@ == target[i],
        decreases matrix.len() - r,
    {
        if r == row {
            r = r + 1;
            continue;
        }
        let mut current_row: Vec<i64> = Vec::new();
        let w = matrix[0].len();
        let ghost out_i = new_matrix@.len() as int;
        assert(skip_index(out_i, row as int) == r);
        assert(m[r as int] == matrix@[r as int]@);
        assert(m[r as int].len() >= columns_read(width(m), col as int));
        let mut c: usize = 0;
        while c < w
            invariant
                m == view_of(matrix),
                target == minor(m, row as int, col as int),
                w == width(m),
                r < matrix@.len(),
                matrix@[r as int]@.len() >= columns_read(w as int, col as int),
                out_i < target.len(),
                skip_index(out_i, row as int) == r,
                c <= w,
                current_row@.len() == count_without(c as int, col as int),
                forall|j: int|
                    0 <= j < current_row@.len() ==> #[trigger] current_row@[j] == target[out_i][j],
            decreases w - c,
        {
            if c == col {
                c = c + 1;
                continue;
            }
            let ghost j = current_row@.len() as int;
            assert(skip_index(j, col as int) == c);
            current_row.push(matrix[r][c]);
            c = c + 1;
        }
        assert(current_row@ =~= target[out_i]);
        new_matrix.push(current_row);
        r = r + 1;
    }
    assert(view_of(&new_matrix) =~= target);
    new_matrix
}

// ---------------------------------------------------------------------------
// Determinants
// ---------------------------------------------------------------------------

/// `c` itself, or its negation when `positive` is false; `None` when the
/// negation leaves the range of `i64`.
fn signed_checked(c: i64, positive: bool) -> (r: Option<i64>)
    ensures
        r is Some <==> in_i64(signed(c as int, positive)),
        r matches Some(v) ==> v == signed(c as int, positive),
{
    if positive {
        Some(c)
    } else if c == i64::MIN {
        None
    } else {
        Some(-c)
    }
}

/// The expansion of `calculate_determinant` with every step checked:
/// `None` exactly when one of its steps would leave the range of `i64`.
fn determinant_checked(matrix: &Vec<Vec<i64>>, coefficient_arg: i64, is_positive_arg: bool) -> (r:
    Option<i64>)
    requires
        expandable(view_of(matrix)),
    ensures
        r is Some <==> determinant_fits(view_of(matrix), coefficient_arg as int, is_positive_arg),
        r matches Some(v) ==> v == signed(coefficient_arg as int, is_positive_arg) * det(
            view_of(matrix),
        ),
    decreases view_of(matrix).len(),
{
    let ghost m = view_of(matrix);
    let ghost s = signed(coefficient_arg as int, is_positive_arg);
    let factor = match signed_checked(coefficient_arg, is_positive_arg) {
        Some(f) => f,
        None => return None,
    };
    assert(m[0] == matrix@[0]@);
    if matrix.len() > 1 {
        let mut total: i64 = 0;
        let mut ind: usize = 0;
        proof {
            lemma_column_expansion_sum(m, 0);
        }
        while ind < matrix.len()
            invariant
                m == view_of(matrix),
                expandable(m),
                m.len() > 1,
                s == signed(coefficient_arg as int, is_positive_arg),
                factor == s,
                in_i64(s),
                ind <= m.len(),
                total == s * column_expansion(m, ind as int),
                forall|i: int|
                    #![trigger minor(m, i, 0)]
                    0 <= i < ind ==> {
                        &&& determinant_fits(minor(m, i, 0), m[i][0] as int, i % 2 == 0)
                        &&& in_i64(s * column_term(m, i))
                        &&& in_i64(s * column_expansion(m, i + 1))
                    },
            decreases m.len() - ind,
        {
            proof {
                lemma_minor_expandable(m, ind as int, 0);
            }
            let stripped = select_minor(matrix, ind, 0);
            let is_positive = ind % 2 == 0;
            assert(m[ind as int] == matrix@[ind as int]@);
            let coefficient = matrix[ind][0];
            let ghost sub = minor(m, ind as int, 0);
            let sub_value = match determinant_checked(&stripped, coefficient, is_positive) {
                Some(v) => v,
                None => return None,
            };
            assert(sub_value == column_term(m, ind as int)) by {
                assert(signed(coefficient as int, is_positive) == alternating(ind as int)
                    * coefficient);
            }
            let product = match factor.checked_mul(sub_value) {
                Some(p) => p,
                None => return None,
            };
            proof {
                lemma_column_expansion_sum(m, ind as int);
                lemma_column_expansion_sum(m, ind as int + 1);
                assert(column_expansion(m, ind as int + 1) == column_expansion(m, ind as int)
                    + column_term(m, ind as int));
                assert(s * column_expansion(m, ind as int + 1) == s * column_expansion(
                    m,
                    ind as int,
                ) + s * column_term(m, ind as int)) by (nonlinear_arith)
                    requires
                        column_expansion(m, ind as int + 1) == column_expansion(m, ind as int)
                            + column_term(m, ind as int),
                ;
            }
            total = match total.checked_add(product) {
                Some(t) => t,
                None => return None,
            };
            ind = ind + 1;
        }
        Some(total)
    } else {
        proof {
            lemma_det_single_row(m);
        }
        assert(m[0][0] * s == s * det(m)) by (nonlinear_arith)
            requires
                det(m) == m[0][0],
        ;
        matrix[0][0].checked_mul(factor)
    }
}

/// The determinant of `matrix`, expanded along its first column and
/// multiplied by `coefficient_arg`, negated when `is_positive_arg` is false.
pub fn calculate_determinant(matrix: &Vec<Vec<i64>>, coefficient_arg: i64, is_positive_arg: bool) -> (result: i64)
    requires
        expandable(view_of(matrix)),
        determinant_fits(view_of(matrix), coefficient_arg as int, is_positive_arg),
    ensures
        result == signed(coefficient_arg as int, is_positive_arg) * det(view_of(matrix)),
{
    match determinant_checked(matrix, coefficient_arg, is_positive_arg) {
        Some(v) => v,
        None => {
            proof {
                assert(false);
            }
            0
        },
    }
}

/// Whether `matrix` has a shape on which the expansion indexes only existing
/// entries.
pub fn is_expandable(matrix: &Vec<Vec<i64>>) -> (r: bool)
    ensures
        r == expandable(view_of(matrix)),
{
    let ghost m = view_of(matrix);
    if matrix.len() == 0 {
        return false;
    }
    assert(m[0] == matrix@[0]@);
    let w = matrix[0].len();
    if w < matrix.len() {
        return false;
    }
    let mut r: usize = 0;
    while r < matrix.len()
        invariant
            m == view_of(matrix),
            m.len() >= 1,
            w == width(m),
            w >= m.len(),
            r <= m.len(),
            forall|k: int| 0 <= k < r ==> #[trigger] m[k].len() >= w,
        decreases m.len() - r,
    {
        assert(m[r as int] == matrix@[r as int]@);
        if matrix[r].len() < w {
            return false;
        }
        r = r + 1;
    }
    true
}

/// `calculate_determinant` on any input: `None` where it would index a
/// missing entry or leave the range of `i64`, its result otherwise.
pub fn try_calculate_determinant(matrix: &Vec<Vec<i64>>, coefficient_arg: i64, is_positive_arg: bool) -> (r: Option<i64>)
    ensures
        r is Some <==> expandable(view_of(matrix)) && determinant_fits(
            view_of(matrix),
            coefficient_arg as int,
            is_positive_arg,
        ),
        r matches Some(v) ==> v == signed(coefficient_arg as int, is_positive_arg) * det(
            view_of(matrix),
        ),
{
    if !is_expandable(matrix) {
        return None;
    }
    determinant_checked(matrix, coefficient_arg, is_positive_arg)
}

/// Terms `start..end` of the expansion along the first row, each step
/// checked: `None` exactly when one of them would leave the range of `i64`.
fn slice_checked(matrix: &Vec<Vec<i64>>, start: usize, end: usize) -> (r: Option<i64>)
    requires
        2 <= view_of(matrix).len() <= width(view_of(matrix)),
        end <= width(view_of(matrix)),
        forall|i: int| start <= i < end ==> #[trigger] rows_cover(view_of(matrix), 0, i),
    ensures
        r is Some <==> slice_fits(view_of(matrix), start as int, end as int),
        r matches Some(v) ==> v == slice_sum(view_of(matrix), start as int, end as int),
{
    let ghost m = view_of(matrix);
    let mut total: i64 = 0;
    let mut i: usize = start;
    assert(m[0] == matrix@[0]@);
    while i < end
        invariant
            m == view_of(matrix),
            2 <= m.len() <= width(m),
            end <= width(m),
            forall|k: int| start <= k < end ==> #[trigger] rows_cover(m, 0, k),
            start <= i,
            i <= end || i == start,
            total == slice_sum(m, start as int, i as int),
            forall|k: int|
                #![trigger minor(m, 0, k)]
                start <= k < i ==> {
                    &&& determinant_fits(minor(m, 0, k), m[0][k] as int, k % 2 == 0)
                    &&& in_i64(slice_sum(m, start as int, k + 1))
                },
        decreases end - i,
    {
        proof {
            lemma_minor_expandable(m, 0, i as int);
            assert(rows_cover(m, 0, i as int));
        }
        let stripped = select_minor(matrix, 0, i);
        let coefficient = matrix[0][i];
        let is_positive = i % 2 == 0;
        let value = match determinant_checked(&stripped, coefficient, is_positive) {
            Some(v) => v,
            None => return None,
        };
        assert(value == row_term(m, i as int)) by {
            assert(signed(coefficient as int, is_positive) == alternating(i as int) * coefficient);
        }
        assert(slice_sum(m, start as int, i + 1) == slice_sum(m, start as int, i as int) + row_term(
            m,
            i as int,
        ));
        total = match total.checked_add(value) {
            Some(t) => t,
            None => return None,
        };
        i = i + 1;
    }
    Some(total)
}

/// Terms `start..end` of the expansion of `matrix` along its first row: the
/// sum over those columns `i` of `(-1)^i * matrix[0][i]` times the determinant
/// of the minor without row 0 and column `i`.
pub fn calculate_slice(matrix: &Vec<Vec<i64>>, start: usize, end: usize) -> (result: i64)
    requires
        slice_shape(view_of(matrix), start as int, end as int),
        slice_fits(view_of(matrix), start as int, end as int),
    ensures
        result == slice_sum(view_of(matrix), start as int, end as int),
{
    match slice_checked(matrix, start, end) {
        Some(v) => v,
        None => {
            proof {
                assert(false);
            }
            0
        },
    }
}

/// `calculate_slice` on any input: `None` where it would fail (an empty
/// range, a missing entry, a step beyond the range of `i64`), its result
/// otherwise.
pub fn try_calculate_slice(matrix: &Vec<Vec<i64>>, start: usize, end: usize) -> (r: Option<i64>)
    ensures
        r is Some <==> slice_shape(view_of(matrix), start as int, end as int) && slice_fits(
            view_of(matrix),
            start as int,
            end as int,
        ),
        r matches Some(v) ==> v == slice_sum(view_of(matrix), start as int, end as int),
{
    let ghost m = view_of(matrix);
    if start >= end || matrix.len() < 2 {
        return None;
    }
    assert(m[0] == matrix@[0]@);
    let w = matrix[0].len();
    if end > w || w < matrix.len() {
        return None;
    }
    // Every minor in the slice reads all `w` leading entries of each row
    // below row 0, but the one without the last column, which reads `w - 1`.
    let need = if start == w - 1 {
        w - 1
    } else {
        w
    };
    assert(need == columns_read(w as int, start as int));
    let mut r: usize = 1;
    while r < matrix.len()
        invariant
            m == view_of(matrix),
            w == width(m),
            2 <= m.len() <= w,
            start < end <= w,
            need == columns_read(w as int, start as int),
            1 <= r <= m.len(),
            forall|k: int| 1 <= k < r ==> #[trigger] m[k].len() >= need,
        decreases m.len() - r,
    {
        assert(m[r as int] == matrix@[r as int]@);
        if matrix[r].len() < need {
            assert(!rows_cover(m, 0, start as int));
            return None;
        }
        r = r + 1;
    }
    assert forall|i: int| start <= i < end implies #[trigger] rows_cover(m, 0, i) by {
        assert forall|k: int| 0 <= k < m.len() && k != 0 implies #[trigger] m[k].len()
            >= columns_read(width(m), i) by {
            assert(m[k].len() >= need);
        }
    }
    slice_checked(matrix, start, end)
}

} // verus!
