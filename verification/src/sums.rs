//! Finite sums of integer-valued spec functions, with the algebra that the
//! determinant proofs need: splitting, shifting, scaling, adding and swapping
//! the order of a double sum.
use vstd::prelude::*;

verus! {

/// `f(lo) + f(lo + 1) + ... + f(hi - 1)`, and 0 when the range is empty.
pub open spec fn sum(f: spec_fn(int) -> int, lo: int, hi: int) -> int
    decreases hi - lo,
{
    if hi <= lo {
        0
    } else {
        sum(f, lo, hi - 1) + f(hi - 1)
    }
}

/// A sum may be cut at any point of its range.
pub proof fn lemma_sum_split(f: spec_fn(int) -> int, lo: int, mid: int, hi: int)
    requires
        lo <= mid <= hi,
    ensures
        sum(f, lo, mid) + sum(f, mid, hi) == sum(f, lo, hi),
    decreases hi - mid,
{
    if hi > mid {
        lemma_sum_split(f, lo, mid, hi - 1);
    }
}

/// The first term of a non-empty sum can be taken out.
pub proof fn lemma_sum_first(f: spec_fn(int) -> int, lo: int, hi: int)
    requires
        lo < hi,
    ensures
        sum(f, lo, hi) == f(lo) + sum(f, lo + 1, hi),
{
    lemma_sum_split(f, lo, lo + 1, hi);
    assert(sum(f, lo, lo + 1) == f(lo)) by {
        assert(sum(f, lo, lo) == 0);
    }
}

/// Sums of functions that agree on the range are equal.
pub proof fn lemma_sum_ext(f: spec_fn(int) -> int, g: spec_fn(int) -> int, lo: int, hi: int)
    requires
        forall|i: int| lo <= i < hi ==> #[trigger] f(i) == g(i),
    ensures
        sum(f, lo, hi) == sum(g, lo, hi),
    decreases hi - lo,
{
    if hi > lo {
        lemma_sum_ext(f, g, lo, hi - 1);
    }
}

/// Moving the range by `d` while reading `f` at `i - d` leaves the sum unchanged.
pub proof fn lemma_sum_shift(f: spec_fn(int) -> int, g: spec_fn(int) -> int, lo: int, hi: int, d: int)
    requires
        forall|i: int| lo + d <= i < hi + d ==> #[trigger] g(i) == f(i - d),
    ensures
        sum(f, lo, hi) == sum(g, lo + d, hi + d),
    decreases hi - lo,
{
    if hi > lo {
        lemma_sum_shift(f, g, lo, hi - 1, d);
        assert(g(hi - 1 + d) == f(hi - 1));
    }
}

/// A constant factor moves into the sum.
pub proof fn lemma_sum_scale(f: spec_fn(int) -> int, g: spec_fn(int) -> int, c: int, lo: int, hi: int)
    requires
        forall|i: int| lo <= i < hi ==> #[trigger] g(i) == c * f(i),
    ensures
        c * sum(f, lo, hi) == sum(g, lo, hi),
    decreases hi - lo,
{
    if hi > lo {
        lemma_sum_scale(f, g, c, lo, hi - 1);
        assert(c * (sum(f, lo, hi - 1) + f(hi - 1)) == c * sum(f, lo, hi - 1) + c * f(hi - 1))
            by (nonlinear_arith);
    }
}

/// The sum of two sums over one range is the sum of the pointwise sums.
pub proof fn lemma_sum_add(
    f: spec_fn(int) -> int,
    g: spec_fn(int) -> int,
    h: spec_fn(int) -> int,
    lo: int,
    hi: int,
)
    requires
        forall|i: int| lo <= i < hi ==> #[trigger] h(i) == f(i) + g(i),
    ensures
        sum(f, lo, hi) + sum(g, lo, hi) == sum(h, lo, hi),
    decreases hi - lo,
{
    if hi > lo {
        lemma_sum_add(f, g, h, lo, hi - 1);
    }
}

/// The rows of a double sum, each summed over `[a, b)`, for the outer index in `[c, d)`.
pub open spec fn sum_rows(f: spec_fn(int, int) -> int, c: int, d: int, a: int, b: int) -> int {
    sum(|i: int| sum(|j: int| f(i, j), a, b), c, d)
}

/// The columns of a double sum: the same terms with the order of summation exchanged.
pub open spec fn sum_cols(f: spec_fn(int, int) -> int, c: int, d: int, a: int, b: int) -> int {
    sum(|j: int| sum(|i: int| f(i, j), c, d), a, b)
}

/// A finite double sum does not depend on the order of summation.
pub proof fn lemma_sum_swap(f: spec_fn(int, int) -> int, c: int, d: int, a: int, b: int)
    ensures
        sum_rows(f, c, d, a, b) == sum_cols(f, c, d, a, b),
    decreases d - c,
{
    if d <= c {
        let zero = |j: int| sum(|i: int| f(i, j), c, d);
        assert forall|j: int| a <= j < b implies #[trigger] zero(j) == 0 * 1int by {}
        lemma_sum_scale(|j: int| 1int, zero, 0, a, b);
    } else {
        lemma_sum_swap(f, c, d - 1, a, b);
        let prev = |j: int| sum(|i: int| f(i, j), c, d - 1);
        let last = |j: int| f(d - 1, j);
        let all = |j: int| sum(|i: int| f(i, j), c, d);
        assert forall|j: int| a <= j < b implies #[trigger] all(j) == prev(j) + last(j) by {}
        lemma_sum_add(prev, last, all, a, b);
    }
}

} // verus!
