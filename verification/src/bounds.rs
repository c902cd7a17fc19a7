//! When the entries are small enough no step of the expansion leaves `i64`:
//! with every entry within `b` in absolute value, the determinant of an
//! `n`-row matrix is within `n! * b^n`, and so is every step the expansion
//! takes on the way there.
use vstd::arithmetic::power::pow;
use vstd::prelude::*;

use crate::laplace::lemma_split_slices_give_determinant;
use crate::matrix::{
    alternating, column_expansion, column_term, det, determinant_fits, expandable, in_i64,
    lemma_column_expansion_sum, lemma_det_single_row, lemma_minor_expandable, minor, row_term,
    row_terms, rows_cover, columns_read, signed, slice_fits, slice_shape, slice_sum, width,
};
use crate::sums::sum;

verus! {

/// The absolute value of `x`.
pub open spec fn abs(x: int) -> int {
    if x < 0 {
        -x
    } else {
        x
    }
}

/// `n!`
pub open spec fn factorial(n: nat) -> nat
    decreases n,
{
    if n == 0 {
        1
    } else {
        n * factorial((n - 1) as nat)
    }
}

/// `n! * b^n`, the bound on the determinant of `n` rows of entries within `b`.
pub open spec fn expansion_bound(n: nat, b: int) -> int {
    factorial(n) * pow(b, n)
}

/// Every entry that the expansion can read (rows `0..n`, columns up to the
/// width of row 0) is within `b` in absolute value.
pub open spec fn entries_within(m: Seq<Seq<i64>>, b: int) -> bool {
    forall|i: int, j: int| 0 <= i < m.len() && 0 <= j < width(m) ==> abs(#[trigger] m[i][j] as int) <= b
}

/// The larger of `|c|` and 1.
pub open spec fn scale_of(c: int) -> int {
    if abs(c) < 1 {
        1
    } else {
        abs(c)
    }
}

proof fn lemma_bound_step(n: nat, b: int)
    requires
        n >= 1,
        b >= 0,
    ensures
        expansion_bound(n, b) == n * (b * expansion_bound((n - 1) as nat, b)),
        expansion_bound((n - 1) as nat, b) >= 0,
        expansion_bound(n, b) >= 0,
        b >= 1 ==> expansion_bound(n, b) >= b * expansion_bound((n - 1) as nat, b),
        b == 0 && n >= 2 ==> expansion_bound((n - 1) as nat, b) == 0,
        b >= 1 ==> expansion_bound((n - 1) as nat, b) >= 1,
        n == 1 ==> expansion_bound((n - 1) as nat, b) == 1,
{
    reveal(pow);
    let k = (n - 1) as nat;
    assert(factorial(n) == n * factorial(k));
    assert(pow(b, n) == b * pow(b, k));
    lemma_pow_nonnegative(b, k);
    let f = factorial(k) as int;
    let p = pow(b, k);
    lemma_factorial_positive(k);
    assert(f * p >= 0) by (nonlinear_arith)
        requires
            f >= 1,
            p >= 0,
    ;
    assert((n * f) * (b * p) == n * (b * (f * p))) by (nonlinear_arith);
    assert(n * (b * (f * p)) >= 0) by (nonlinear_arith)
        requires
            f * p >= 0,
            b >= 0,
            n >= 1,
    ;
    assert(b >= 1 ==> n * (b * (f * p)) >= b * (f * p)) by (nonlinear_arith)
        requires
            f * p >= 0,
            n >= 1,
    ;
    if b >= 1 {
        vstd::arithmetic::power::lemma_pow_positive(b, k);
        assert(f * p >= 1) by (nonlinear_arith)
            requires
                f >= 1,
                p >= 1,
        ;
    }
    if b == 0 && n >= 2 {
        assert(pow(b, k) == b * pow(b, (k - 1) as nat));
        assert(f * p == 0) by (nonlinear_arith)
            requires
                p == 0,
        ;
    }
}

proof fn lemma_pow_nonnegative(b: int, e: nat)
    requires
        b >= 0,
    ensures
        pow(b, e) >= 0,
    decreases e,
{
    reveal(pow);
    if e > 0 {
        lemma_pow_nonnegative(b, (e - 1) as nat);
        assert(b * pow(b, (e - 1) as nat) >= 0) by (nonlinear_arith)
            requires
                b >= 0,
                pow(b, (e - 1) as nat) >= 0,
        ;
    }
}

proof fn lemma_factorial_positive(n: nat)
    ensures
        factorial(n) >= 1,
    decreases n,
{
    if n > 0 {
        lemma_factorial_positive((n - 1) as nat);
        assert(n * factorial((n - 1) as nat) >= 1) by (nonlinear_arith)
            requires
                n >= 1,
                factorial((n - 1) as nat) >= 1,
        ;
    }
}

proof fn lemma_abs_product(x: int, y: int)
    ensures
        abs(x * y) == abs(x) * abs(y),
{
    assert(abs(x * y) == abs(x) * abs(y)) by (nonlinear_arith);
}

proof fn lemma_product_within(x: int, xb: int, y: int, yb: int)
    requires
        0 <= x <= xb,
        0 <= y <= yb,
    ensures
        x * y <= xb * yb,
        0 <= x * y,
{
    assert(x * y <= xb * yb) by (nonlinear_arith)
        requires
            0 <= x <= xb,
            0 <= y <= yb,
    ;
    assert(0 <= x * y) by (nonlinear_arith)
        requires
            0 <= x,
            0 <= y,
    ;
}

proof fn lemma_minor_within(m: Seq<Seq<i64>>, b: int, row: int, col: int)
    requires
        2 <= m.len() <= width(m),
        0 <= row < m.len(),
        0 <= col < width(m),
        entries_within(m, b),
    ensures
        entries_within(minor(m, row, col), b),
{
    lemma_minor_expandable(m, row, col);
    let s = minor(m, row, col);
    assert forall|i: int, j: int| 0 <= i < s.len() && 0 <= j < width(s) implies abs(
        #[trigger] s[i][j] as int,
    ) <= b by {
        let x = if i < row {
            i
        } else {
            i + 1
        };
        let y = if j < col {
            j
        } else {
            j + 1
        };
        assert(s[i][j] == m[x][y]);
    }
}

/// A term of an expansion is within `b * (n - 1)! * b^(n - 1)`.
proof fn lemma_term_within(m: Seq<Seq<i64>>, b: int, entry: int, sub: Seq<Seq<i64>>, sign: int)
    requires
        b >= 0,
        abs(entry) <= b,
        abs(det(sub)) <= expansion_bound((m.len() - 1) as nat, b),
        sign == 1 || sign == -1,
    ensures
        abs(sign * entry * det(sub)) <= b * expansion_bound((m.len() - 1) as nat, b),
{
    lemma_abs_product(sign * entry, det(sub));
    lemma_abs_product(sign, entry);
    lemma_product_within(
        abs(entry),
        b,
        abs(det(sub)),
        expansion_bound((m.len() - 1) as nat, b),
    );
}

/// The determinant of `n` rows of entries within `b` is within `n! * b^n`,
/// and each partial expansion over `k` rows within `k * b * (n-1)! * b^(n-1)`.
pub proof fn lemma_determinant_within(m: Seq<Seq<i64>>, b: int)
    requires
        1 <= m.len() <= width(m),
        b >= 0,
        entries_within(m, b),
    ensures
        abs(det(m)) <= expansion_bound(m.len(), b),
        forall|k: int|
            0 <= k <= m.len() ==> abs(#[trigger] column_expansion(m, k)) <= k * (b
                * expansion_bound((m.len() - 1) as nat, b)),
        forall|i: int|
            0 <= i < m.len() ==> abs(#[trigger] column_term(m, i)) <= b * expansion_bound(
                (m.len() - 1) as nat,
                b,
            ),
        forall|j: int|
            0 <= j < m.len() ==> abs(#[trigger] row_term(m, j)) <= b * expansion_bound(
                (m.len() - 1) as nat,
                b,
            ),
    decreases m.len(),
{
    let n = m.len() as int;
    let e = expansion_bound((n - 1) as nat, b);
    lemma_bound_step(n as nat, b);
    assert(width(m) >= 1);
    if n == 1 {
        lemma_det_single_row(m);
        assert(abs(m[0][0] as int) <= b);
        assert(e == 1);
        assert(minor(m, 0, 0).len() == 0);
        assert(column_expansion(m, 0) == 0);
        assert(column_expansion(m, 1) == m[0][0]);
    } else {
        assert forall|i: int| 0 <= i < n implies abs(#[trigger] column_term(m, i)) <= b * e by {
            lemma_minor_expandable(m, i, 0);
            lemma_minor_within(m, b, i, 0);
            lemma_determinant_within(minor(m, i, 0), b);
            assert(abs(m[i][0] as int) <= b);
            lemma_term_within(m, b, m[i][0] as int, minor(m, i, 0), alternating(i));
        }
        assert forall|j: int| 0 <= j < n implies abs(#[trigger] row_term(m, j)) <= b * e by {
            lemma_minor_expandable(m, 0, j);
            lemma_minor_within(m, b, 0, j);
            lemma_determinant_within(minor(m, 0, j), b);
            assert(abs(m[0][j] as int) <= b);
            lemma_term_within(m, b, m[0][j] as int, minor(m, 0, j), alternating(j));
        }
        lemma_partial_within(m, b, e, n);
        assert(abs(column_expansion(m, n)) <= n * (b * e));
    }
    if n == 1 {
        assert forall|k: int| 0 <= k <= n implies abs(#[trigger] column_expansion(m, k)) <= k * (b
            * e) by {}
        assert forall|i: int| 0 <= i < n implies abs(#[trigger] column_term(m, i)) <= b * e by {
            assert(det(minor(m, 0, 0)) == 1);
        }
        assert forall|j: int| 0 <= j < n implies abs(#[trigger] row_term(m, j)) <= b * e by {
            assert(det(minor(m, 0, 0)) == 1);
        }
    }
}

proof fn lemma_partial_within(m: Seq<Seq<i64>>, b: int, e: int, k: int)
    requires
        0 <= k <= m.len(),
        b * e >= 0,
        forall|i: int| 0 <= i < m.len() ==> abs(#[trigger] column_term(m, i)) <= b * e,
    ensures
        forall|q: int| 0 <= q <= k ==> abs(#[trigger] column_expansion(m, q)) <= q * (b * e),
    decreases k,
{
    if k > 0 {
        lemma_partial_within(m, b, e, k - 1);
        lemma_column_expansion_sum(m, k);
        lemma_column_expansion_sum(m, k - 1);
        assert(column_expansion(m, k) == column_expansion(m, k - 1) + column_term(m, k - 1));
        assert(abs(column_term(m, k - 1)) <= b * e);
        assert((k - 1) * (b * e) + b * e == k * (b * e)) by (nonlinear_arith);
    } else {
        assert(column_expansion(m, 0) == 0);
    }
}

proof fn lemma_scaled_within(c: int, x: int, limit: int, bound: int)
    requires
        abs(x) <= bound,
        scale_of(c) * bound <= limit,
        bound >= 0,
    ensures
        abs(c * x) <= limit,
{
    lemma_abs_product(c, x);
    lemma_product_within(abs(c), scale_of(c), abs(x), bound);
}

/// With every entry within `b` and `max(|c|, 1) * n! * b^n` within `i64`
/// (and `c` not `i64::MIN` when it is negated), no step of
/// `calculate_determinant(m, c, positive)` leaves `i64`.
pub proof fn lemma_bounded_determinant_fits(m: Seq<Seq<i64>>, b: int, c: i64, positive: bool)
    requires
        1 <= m.len() <= width(m),
        b >= 0,
        entries_within(m, b),
        positive || c != i64::MIN,
        scale_of(c as int) * expansion_bound(m.len(), b) <= i64::MAX,
    ensures
        determinant_fits(m, c as int, positive),
    decreases m.len(),
{
    let n = m.len() as int;
    let e = expansion_bound((n - 1) as nat, b);
    let s = signed(c as int, positive);
    lemma_bound_step(n as nat, b);
    lemma_determinant_within(m, b);
    assert(abs(s) == abs(c as int));
    assert(scale_of(s) == scale_of(c as int));
    if n == 1 {
        assert(abs(m[0][0] as int) <= b);
        assert(e == 1);
        assert(expansion_bound(n as nat, b) == b) by (nonlinear_arith)
            requires
                expansion_bound(n as nat, b) == n * (b * e),
                n == 1,
                e == 1,
        ;
        assert(scale_of(s) * b <= i64::MAX);
        lemma_scaled_within(s, m[0][0] as int, i64::MAX as int, b);
        assert(m[0][0] * s == s * m[0][0]) by (nonlinear_arith);
    } else {
        // b * e <= n! * b^n, and each entry's scale times the minor's bound
        // stays below it too.
        assert(b * e <= expansion_bound(n as nat, b)) by (nonlinear_arith)
            requires
                expansion_bound(n as nat, b) == n * (b * e),
                b * e >= 0,
                n >= 1,
        ;
        assert(scale_of(c as int) * expansion_bound(n as nat, b) >= expansion_bound(n as nat, b))
            by (nonlinear_arith)
            requires
                scale_of(c as int) >= 1,
                expansion_bound(n as nat, b) >= 0,
        ;
        assert forall|i: int|
            #![trigger minor(m, i, 0)]
            0 <= i < n implies {
            &&& determinant_fits(minor(m, i, 0), m[i][0] as int, i % 2 == 0)
            &&& in_i64(s * column_term(m, i))
            &&& in_i64(s * column_expansion(m, i + 1))
        } by {
            let x = m[i][0];
            assert(abs(x as int) <= b);
            lemma_minor_expandable(m, i, 0);
            lemma_minor_within(m, b, i, 0);
            assert(scale_of(x as int) * e <= i64::MAX) by {
                if b >= 1 {
                    lemma_product_within(scale_of(x as int), b, e, e);
                } else {
                    assert(e == 0);
                }
            }
            assert(x != i64::MIN) by {
                if b >= 1 {
                    assert(b <= b * e) by (nonlinear_arith)
                        requires
                            b >= 1,
                            e >= 1,
                    ;
                    assert(expansion_bound(n as nat, b) <= scale_of(c as int) * expansion_bound(
                        n as nat,
                        b,
                    ));
                }
            }
            assert(scale_of(s) * (b * e) <= scale_of(s) * expansion_bound(n as nat, b))
                by (nonlinear_arith)
                requires
                    b * e <= expansion_bound(n as nat, b),
                    scale_of(s) >= 1,
            ;
            lemma_bounded_determinant_fits(minor(m, i, 0), b, x, i % 2 == 0);
            lemma_scaled_within(s, column_term(m, i), i64::MAX as int, b * e);
            assert((i + 1) * (b * e) <= n * (b * e)) by (nonlinear_arith)
                requires
                    i + 1 <= n,
                    b * e >= 0,
            ;
            lemma_scaled_within(s, column_expansion(m, i + 1), i64::MAX as int, n * (b * e));
        }
    }
}

/// With every entry within `b` and `n! * b^n` within `i64`, no step of
/// `calculate_slice(m, start, end)` leaves `i64`, for any columns
/// `start <= end <= n`.
pub proof fn lemma_bounded_slice_fits(m: Seq<Seq<i64>>, b: int, start: int, end: int)
    requires
        2 <= m.len() <= width(m),
        b >= 0,
        entries_within(m, b),
        expansion_bound(m.len(), b) <= i64::MAX,
        0 <= start <= end <= m.len(),
    ensures
        slice_fits(m, start, end),
{
    let n = m.len() as int;
    let e = expansion_bound((n - 1) as nat, b);
    lemma_bound_step(n as nat, b);
    lemma_determinant_within(m, b);
    assert(b * e <= expansion_bound(n as nat, b)) by (nonlinear_arith)
        requires
            expansion_bound(n as nat, b) == n * (b * e),
            b * e >= 0,
            n >= 1,
    ;
    assert forall|i: int|
        #![trigger minor(m, 0, i)]
        start <= i < end implies {
        &&& determinant_fits(minor(m, 0, i), m[0][i] as int, i % 2 == 0)
        &&& in_i64(slice_sum(m, start, i + 1))
    } by {
        let x = m[0][i];
        assert(abs(x as int) <= b);
        lemma_minor_expandable(m, 0, i);
        lemma_minor_within(m, b, 0, i);
        assert(scale_of(x as int) * e <= i64::MAX) by {
            if b >= 1 {
                lemma_product_within(scale_of(x as int), b, e, e);
            } else {
                assert(e == 0);
            }
        }
        assert(x != i64::MIN) by {
            if b >= 1 {
                assert(b <= b * e) by (nonlinear_arith)
                    requires
                        b >= 1,
                        e >= 1,
                ;
            }
        }
        lemma_bounded_determinant_fits(minor(m, 0, i), b, x, i % 2 == 0);
        lemma_slice_within(m, b * e, start, i + 1);
        assert((i + 1 - start) * (b * e) <= n * (b * e)) by (nonlinear_arith)
            requires
                i + 1 - start <= n,
                b * e >= 0,
        ;
    }
}

proof fn lemma_slice_within(m: Seq<Seq<i64>>, t: int, start: int, k: int)
    requires
        0 <= start <= k <= m.len(),
        t >= 0,
        forall|j: int| 0 <= j < m.len() ==> abs(#[trigger] row_term(m, j)) <= t,
    ensures
        abs(slice_sum(m, start, k)) <= (k - start) * t,
    decreases k - start,
{
    if k > start {
        lemma_slice_within(m, t, start, k - 1);
        assert(slice_sum(m, start, k) == slice_sum(m, start, k - 1) + row_terms(m)(k - 1));
        assert(abs(row_term(m, k - 1)) <= t);
        assert((k - 1 - start) * t + t == (k - start) * t) by (nonlinear_arith);
    } else {
        assert(slice_sum(m, start, k) == 0);
    }
}

/// The scaling law: with entries within `b` and the bound met, both
/// `calculate_determinant(m, c, positive)` and `calculate_determinant(m, 1,
/// true)` succeed, and the first is the second times `c`, signed.
pub proof fn lemma_bounded_scaling(m: Seq<Seq<i64>>, b: int, c: i64, positive: bool)
    requires
        expandable(m),
        b >= 0,
        entries_within(m, b),
        c != i64::MIN,
        scale_of(c as int) * expansion_bound(m.len(), b) <= i64::MAX,
    ensures
        determinant_fits(m, c as int, positive),
        determinant_fits(m, 1, true),
        signed(c as int, positive) * det(m) == signed(c as int, positive) * (signed(1, true) * det(
            m,
        )),
{
    lemma_bounded_determinant_fits(m, b, c, positive);
    assert(scale_of(1) == 1);
    assert(scale_of(c as int) * expansion_bound(m.len(), b) >= expansion_bound(m.len(), b)) by {
        lemma_bound_step(m.len(), b);
        assert(scale_of(c as int) * expansion_bound(m.len(), b) >= expansion_bound(m.len(), b))
            by (nonlinear_arith)
            requires
                scale_of(c as int) >= 1,
                expansion_bound(m.len(), b) >= 0,
        ;
    }
    lemma_bounded_determinant_fits(m, b, 1, true);
    assert(signed(1, true) == 1);
    let d = det(m);
    assert(1 * d == d);
}

/// The law of the split computation: with entries within `b` and
/// `n! * b^n` within `i64`, the slices `0..mid` and `mid..n` of row 0 and the
/// whole expansion all succeed, and the slices add up to the determinant.
pub proof fn lemma_bounded_split(m: Seq<Seq<i64>>, b: int, mid: int)
    requires
        expandable(m),
        m.len() >= 2,
        b >= 0,
        entries_within(m, b),
        expansion_bound(m.len(), b) <= i64::MAX,
        0 <= mid <= m.len(),
    ensures
        slice_fits(m, 0, mid),
        slice_fits(m, mid, m.len() as int),
        determinant_fits(m, 1, true),
        slice_sum(m, 0, mid) + slice_sum(m, mid, m.len() as int) == signed(1, true) * det(m),
{
    lemma_bounded_slice_fits(m, b, 0, mid);
    lemma_bounded_slice_fits(m, b, mid, m.len() as int);
    assert(scale_of(1) == 1);
    lemma_bounded_determinant_fits(m, b, 1, true);
    lemma_split_slices_give_determinant(m, mid);
}

/// Every row as long as there are rows.
pub open spec fn square(m: Seq<Seq<i64>>) -> bool {
    forall|r: int| 0 <= r < m.len() ==> #[trigger] m[r].len() == m.len()
}

/// Every square matrix with at least one row has the shape the expansion
/// needs, and with entries within `b` and `max(|c|, 1) * n! * b^n` within
/// `i64` (and `c` not `i64::MIN` when negated), every step fits: so
/// `try_calculate_determinant(m, c, positive)` succeeds.
pub proof fn lemma_square_determinant_succeeds(m: Seq<Seq<i64>>, b: int, c: i64, positive: bool)
    requires
        m.len() >= 1,
        square(m),
        b >= 0,
        entries_within(m, b),
        positive || c != i64::MIN,
        scale_of(c as int) * expansion_bound(m.len(), b) <= i64::MAX,
    ensures
        expandable(m),
        determinant_fits(m, c as int, positive),
{
    assert(m[0].len() == m.len());
    assert forall|r: int| 0 <= r < m.len() implies #[trigger] m[r].len() >= width(m) by {}
    lemma_bounded_determinant_fits(m, b, c, positive);
}

/// For every square matrix with at least two rows, every non-empty range of
/// columns `start < end <= n` has the shape a slice needs, and with entries
/// within `b` and `n! * b^n` within `i64` every step fits: so
/// `try_calculate_slice(m, start, end)` succeeds on it.
pub proof fn lemma_square_slices_succeed(m: Seq<Seq<i64>>, b: int, start: int, end: int)
    requires
        m.len() >= 2,
        square(m),
        b >= 0,
        entries_within(m, b),
        expansion_bound(m.len(), b) <= i64::MAX,
        0 <= start < end <= m.len(),
    ensures
        slice_shape(m, start, end),
        slice_fits(m, start, end),
{
    assert(m[0].len() == m.len());
    assert forall|i: int| start <= i < end implies #[trigger] rows_cover(m, 0, i) by {
        assert forall|r: int| 0 <= r < m.len() && r != 0 implies #[trigger] m[r].len()
            >= columns_read(width(m), i) by {}
    }
    lemma_bounded_slice_fits(m, b, start, end);
}

} // verus!
