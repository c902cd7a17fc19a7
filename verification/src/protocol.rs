//! The decisions of the forked computations: which minors a worker hands to
//! its children, and how a worker folds a child's result into the value it
//! reports. The processes, channels and shared memory stay with the caller.
use vstd::prelude::*;

use crate::laplace::lemma_row_expansion;
use crate::matrix::{
    alternating, column_term, column_terms, det, in_i64, lemma_column_expansion_sum,
    columns_read, determinant_fits, expandable, lemma_det_single_row, lemma_minor_expandable, minor,
    row_term, rows_cover, try_calculate_determinant, rows_reach_width, row_terms, select_minor, signed, view_of, width,
};
use crate::sums::sum;
use vstd::arithmetic::power::pow;

verus! {

/// A minor to be handed to a child, with the coefficient and sign that the
/// child applies to its determinant.
pub struct Subtask {
    pub minor: Vec<Vec<i64>>,
    pub coefficient: i64,
    pub is_positive: bool,
}

/// What a child contributes when it reports its minor exactly:
/// its coefficient, signed, times the determinant of its minor.
pub open spec fn contribution(minor: Seq<Seq<i64>>, coefficient: int, is_positive: bool) -> int {
    signed(coefficient, is_positive) * det(minor)
}

/// Whether the matrix has as many columns in row 0 as it has rows.
pub fn is_square_matrix(matrix: &Vec<Vec<i64>>) -> (r: bool)
    requires
        matrix@.len() >= 1,
    ensures
        r == (view_of(matrix).len() == width(view_of(matrix))),
{
    assert(view_of(matrix)[0] == matrix@[0]@);
    matrix.len() == matrix[0].len()
}

/// The children of a worker that expands along the first column: for each
/// row `k`, the minor without row `k` and column 0, with coefficient
/// `matrix[k][0]`, positive for even `k`.
pub fn first_column_subtasks(matrix: &Vec<Vec<i64>>) -> (tasks: Vec<Subtask>)
    requires
        view_of(matrix).len() > 0 ==> width(view_of(matrix)) >= 1,
        view_of(matrix).len() > 1 ==> rows_reach_width(view_of(matrix)),
    ensures
        tasks@.len() == view_of(matrix).len(),
        forall|k: int|
            0 <= k < tasks@.len() ==> {
                &&& view_of(&#[trigger] tasks@[k].minor) == minor(view_of(matrix), k, 0)
                &&& tasks@[k].coefficient == view_of(matrix)[k][0]
                &&& tasks@[k].is_positive == (k % 2 == 0)
            },
{
    let ghost m = view_of(matrix);
    let mut tasks: Vec<Subtask> = Vec::new();
    let mut ind: usize = 0;
    while ind < matrix.len()
        invariant
            m == view_of(matrix),
            m.len() > 0 ==> width(m) >= 1,
            m.len() > 1 ==> rows_reach_width(m),
            ind <= m.len(),
            tasks@.len() == ind,
            forall|k: int|
                0 <= k < ind ==> {
                    &&& view_of(&#[trigger] tasks@[k].minor) == minor(m, k, 0)
                    &&& tasks@[k].coefficient == m[k][0]
                    &&& tasks@[k].is_positive == (k % 2 == 0)
                },
        decreases m.len() - ind,
    {
        assert(m[ind as int] == matrix@[ind as int]@);
        assert(m[0] == matrix@[0]@);
        assert(m[ind as int].len() >= 1) by {
            if m.len() > 1 {
                assert(m[ind as int].len() >= width(m));
            }
        }
        assert(rows_cover(m, ind as int, 0));
        let stripped = select_minor(matrix, ind, 0);
        let task = Subtask { minor: stripped, coefficient: matrix[ind][0], is_positive: ind % 2 == 0 };
        tasks.push(task);
        ind = ind + 1;
    }
    tasks
}

/// The children of a worker that expands along the first row: for each
/// column `k < n` (`n` the number of rows), the minor without row 0 and
/// column `k`, with coefficient `matrix[0][k]`, positive for even `k`.
pub fn first_row_subtasks(matrix: &Vec<Vec<i64>>) -> (tasks: Vec<Subtask>)
    requires
        view_of(matrix).len() <= width(view_of(matrix)),
        forall|col: int| 0 <= col < view_of(matrix).len() ==> rows_cover(view_of(matrix), 0, col),
    ensures
        tasks@.len() == view_of(matrix).len(),
        forall|k: int|
            0 <= k < tasks@.len() ==> {
                &&& view_of(&#[trigger] tasks@[k].minor) == minor(view_of(matrix), 0, k)
                &&& tasks@[k].coefficient == view_of(matrix)[0][k]
                &&& tasks@[k].is_positive == (k % 2 == 0)
            },
{
    let ghost m = view_of(matrix);
    let mut tasks: Vec<Subtask> = Vec::new();
    let mut col: usize = 0;
    while col < matrix.len()
        invariant
            m == view_of(matrix),
            m.len() <= width(m),
            forall|c: int| 0 <= c < m.len() ==> rows_cover(m, 0, c),
            col <= m.len(),
            tasks@.len() == col,
            forall|k: int|
                0 <= k < col ==> {
                    &&& view_of(&#[trigger] tasks@[k].minor) == minor(m, 0, k)
                    &&& tasks@[k].coefficient == m[0][k]
                    &&& tasks@[k].is_positive == (k % 2 == 0)
                },
        decreases m.len() - col,
    {
        assert(m[0] == matrix@[0]@);
        let stripped = select_minor(matrix, 0, col);
        let task = Subtask { minor: stripped, coefficient: matrix[0][col], is_positive: col % 2 == 0 };
        tasks.push(task);
        col = col + 1;
    }
    tasks
}

/// The contributions of all children of a worker, when each reports its
/// minor exactly.
pub open spec fn total_contribution(tasks: Seq<Subtask>) -> int
    decreases tasks.len(),
{
    if tasks.len() == 0 {
        0
    } else {
        total_contribution(tasks.drop_last()) + contribution(
            view_of(&tasks.last().minor),
            tasks.last().coefficient as int,
            tasks.last().is_positive,
        )
    }
}

proof fn lemma_total_as_sum(tasks: Seq<Subtask>, f: spec_fn(int) -> int, k: int)
    requires
        0 <= k <= tasks.len(),
        forall|i: int|
            0 <= i < tasks.len() ==> #[trigger] f(i) == contribution(
                view_of(&tasks[i].minor),
                tasks[i].coefficient as int,
                tasks[i].is_positive,
            ),
    ensures
        total_contribution(tasks.take(k)) == sum(f, 0, k),
    decreases k,
{
    if k > 0 {
        lemma_total_as_sum(tasks, f, k - 1);
        assert(tasks.take(k).drop_last() =~= tasks.take(k - 1));
    }
}

/// The children that `first_column_subtasks` plans contribute, together, the
/// determinant of the matrix.
pub proof fn lemma_first_column_subtasks_total(m: Seq<Seq<i64>>, tasks: Seq<Subtask>)
    requires
        m.len() >= 1,
        tasks.len() == m.len(),
        forall|k: int|
            0 <= k < tasks.len() ==> {
                &&& view_of(&#[trigger] tasks[k].minor) == minor(m, k, 0)
                &&& tasks[k].coefficient == m[k][0]
                &&& tasks[k].is_positive == (k % 2 == 0)
            },
    ensures
        total_contribution(tasks) == det(m),
{
    let f = column_terms(m);
    assert forall|i: int| 0 <= i < tasks.len() implies #[trigger] f(i) == contribution(
        view_of(&tasks[i].minor),
        tasks[i].coefficient as int,
        tasks[i].is_positive,
    ) by {
        assert(view_of(&tasks[i].minor) == minor(m, i, 0));
        assert(signed(m[i][0] as int, i % 2 == 0) == alternating(i) * m[i][0]);
    }
    lemma_total_as_sum(tasks, f, m.len() as int);
    assert(tasks.take(m.len() as int) =~= tasks);
    lemma_column_expansion_sum(m, m.len() as int);
}

/// The children that `first_row_subtasks` plans contribute, together, the
/// determinant of the matrix.
pub proof fn lemma_first_row_subtasks_total(m: Seq<Seq<i64>>, tasks: Seq<Subtask>)
    requires
        1 <= m.len() <= width(m),
        tasks.len() == m.len(),
        forall|k: int|
            0 <= k < tasks.len() ==> {
                &&& view_of(&#[trigger] tasks[k].minor) == minor(m, 0, k)
                &&& tasks[k].coefficient == m[0][k]
                &&& tasks[k].is_positive == (k % 2 == 0)
            },
    ensures
        total_contribution(tasks) == det(m),
{
    let f = row_terms(m);
    assert forall|i: int| 0 <= i < tasks.len() implies #[trigger] f(i) == contribution(
        view_of(&tasks[i].minor),
        tasks[i].coefficient as int,
        tasks[i].is_positive,
    ) by {
        assert(view_of(&tasks[i].minor) == minor(m, 0, i));
        assert(signed(m[0][i] as int, i % 2 == 0) == alternating(i) * m[0][i]);
    }
    lemma_total_as_sum(tasks, f, m.len() as int);
    assert(tasks.take(m.len() as int) =~= tasks);
    lemma_row_expansion(m);
}

/// What a channel worker sends on for a result `res` received from a child:
/// `res * coefficient`, or `res * (-coefficient)` when not positive.
pub fn channel_forward(res: i64, coefficient: i64, is_positive: bool) -> (sent: i64)
    requires
        in_i64(signed(coefficient as int, is_positive)),
        in_i64(res * signed(coefficient as int, is_positive)),
    ensures
        sent == res * signed(coefficient as int, is_positive),
{
    if is_positive {
        res * coefficient
    } else {
        res * (-coefficient)
    }
}

/// What a channel worker on a matrix of one entry sends:
/// `entry * coefficient`, or `(-entry) * coefficient` when not positive.
pub fn channel_leaf(entry: i64, coefficient: i64, is_positive: bool) -> (sent: i64)
    requires
        in_i64(signed(entry as int, is_positive)),
        in_i64(signed(entry as int, is_positive) * coefficient),
    ensures
        sent == signed(entry as int, is_positive) * coefficient,
        sent == entry * signed(coefficient as int, is_positive),
{
    assert(signed(entry as int, is_positive) * coefficient == entry * signed(
        coefficient as int,
        is_positive,
    )) by (nonlinear_arith);
    if is_positive {
        entry * coefficient
    } else {
        -entry * coefficient
    }
}

/// The word a shared-memory worker writes back once its child has left
/// `result_word` in its own word: the value read from `read_word`, plus
/// `result * coefficient` when positive, minus it otherwise. Both words hold
/// an `i64` as its two's-complement bits.
pub fn shm_combine(read_word: u64, result_word: u64, coefficient: i64, is_positive: bool) -> (written: u64)
    requires
        in_i64((result_word as i64) * coefficient),
        in_i64(
            (read_word as i64) + signed((result_word as i64) * coefficient, is_positive),
        ),
    ensures
        written == ((read_word as i64) + signed((result_word as i64) * coefficient, is_positive)) as u64,
{
    let result = result_word as i64;
    let read = read_word as i64;
    let module = result * coefficient;
    let write = if is_positive {
        read + module
    } else {
        read - module
    };
    write as u64
}

/// The word a shared-memory worker on a matrix of one entry writes: the
/// value read from `read_word` plus `entry * coefficient` when positive,
/// plus its negation otherwise.
pub fn shm_leaf(read_word: u64, entry: i64, coefficient: i64, is_positive: bool) -> (written: u64)
    requires
        in_i64(entry * coefficient),
        in_i64(signed(entry * coefficient, is_positive)),
        in_i64((read_word as i64) + signed(entry * coefficient, is_positive)),
    ensures
        written == ((read_word as i64) + signed(entry * coefficient, is_positive)) as u64,
{
    let read = read_word as i64;
    let module = entry * coefficient;
    let write = if is_positive {
        module + read
    } else {
        -module + read
    };
    write as u64
}

// ---------------------------------------------------------------------------
// The whole tree of workers
// ---------------------------------------------------------------------------

/// The sum of a sequence of values.
pub open spec fn sent_total(s: Seq<int>) -> int
    decreases s.len(),
{
    if s.len() == 0 {
        0
    } else {
        sent_total(s.drop_last()) + s.last()
    }
}

/// The values that a channel worker for `m`, with `coefficient` and sign
/// `is_positive`, sends on its output, in the order they leave when its
/// children run one after another: nothing when row 0 is not as long as there
/// are rows; the signed entry times the coefficient for a single entry; else
/// what its children on the minors of row 0 send, each value multiplied by
/// the signed coefficient.
pub open spec fn channel_sent(m: Seq<Seq<i64>>, coefficient: int, is_positive: bool) -> Seq<int>
    decreases m.len(), m.len() + 1,
{
    if m.len() == 0 || m.len() != width(m) {
        seq![]
    } else if m.len() == 1 {
        seq![signed(m[0][0] as int, is_positive) * coefficient]
    } else {
        channel_children_sent(m, m.len() as int).map_values(
            |v: int| v * signed(coefficient, is_positive),
        )
    }
}

/// What the children for the first `k` columns of row 0 send, in order.
pub open spec fn channel_children_sent(m: Seq<Seq<i64>>, k: int) -> Seq<int>
    decreases m.len(), k,
{
    if k <= 0 || k > m.len() {
        seq![]
    } else {
        channel_children_sent(m, k - 1) + channel_sent(
            minor(m, 0, k - 1),
            m[0][k - 1] as int,
            (k - 1) % 2 == 0,
        )
    }
}

/// What a shared-memory worker for `m`, with `coefficient` and sign
/// `is_positive`, adds to the word it is given: the signed product of the
/// entry and the coefficient for a single entry; else the signed product of
/// what its children on the minors of column 0 add to a fresh word (zero) and
/// the coefficient.
pub open spec fn shm_added(m: Seq<Seq<i64>>, coefficient: int, is_positive: bool) -> int
    decreases m.len(), m.len() + 1,
{
    if m.len() == 1 {
        signed(m[0][0] * coefficient, is_positive)
    } else if m.len() > 1 {
        signed(shm_children_added(m, m.len() as int) * coefficient, is_positive)
    } else {
        0
    }
}

/// What the children for the first `k` rows add to a fresh word.
pub open spec fn shm_children_added(m: Seq<Seq<i64>>, k: int) -> int
    decreases m.len(), k,
{
    if k <= 0 || k > m.len() {
        0
    } else {
        shm_children_added(m, k - 1) + shm_added(
            minor(m, k - 1, 0),
            m[k - 1][0] as int,
            (k - 1) % 2 == 0,
        )
    }
}

proof fn lemma_sent_total_concat(a: Seq<int>, b: Seq<int>)
    ensures
        sent_total(a + b) == sent_total(a) + sent_total(b),
    decreases b.len(),
{
    if b.len() > 0 {
        lemma_sent_total_concat(a, b.drop_last());
        assert((a + b).drop_last() =~= a + b.drop_last());
    } else {
        assert(a + b =~= a);
    }
}

proof fn lemma_sent_total_scale(a: Seq<int>, c: int)
    ensures
        sent_total(a.map_values(|v: int| v * c)) == sent_total(a) * c,
    decreases a.len(),
{
    if a.len() > 0 {
        lemma_sent_total_scale(a.drop_last(), c);
        assert(a.map_values(|v: int| v * c).drop_last() =~= a.drop_last().map_values(
            |v: int| v * c,
        ));
        assert((sent_total(a.drop_last()) + a.last()) * c == sent_total(a.drop_last()) * c
            + a.last() * c) by (nonlinear_arith);
    }
}

proof fn lemma_signed_product(x: int, c: int, p: bool)
    ensures
        signed(x, p) * c == signed(c, p) * x,
        signed(x * c, p) == signed(c, p) * x,
{
    if p {
        assert(x * c == c * x) by (nonlinear_arith);
    } else {
        assert((-x) * c == (-c) * x) by (nonlinear_arith);
        assert(-(x * c) == (-c) * x) by (nonlinear_arith);
    }
}

/// Everything a channel worker sends adds up to its coefficient, signed,
/// times the determinant, for every matrix whose row 0 is as long as there
/// are rows.
pub proof fn lemma_channel_sent_total(m: Seq<Seq<i64>>, coefficient: int, is_positive: bool)
    requires
        1 <= m.len() == width(m),
    ensures
        sent_total(channel_sent(m, coefficient, is_positive)) == signed(coefficient, is_positive)
            * det(m),
    decreases m.len(), m.len() + 1,
{
    let s = signed(coefficient, is_positive);
    if m.len() == 1 {
        lemma_det_single_row(m);
        lemma_signed_product(m[0][0] as int, coefficient, is_positive);
        let x = signed(m[0][0] as int, is_positive) * coefficient;
        let one = seq![x];
        assert(one.drop_last() =~= Seq::<int>::empty());
        assert(sent_total(Seq::<int>::empty()) == 0);
        assert(sent_total(one) == x);
    } else {
        let children = channel_children_sent(m, m.len() as int);
        lemma_channel_children_total(m, m.len() as int);
        lemma_sent_total_scale(children, s);
        lemma_row_expansion(m);
        assert(sent_total(children) * s == s * det(m)) by (nonlinear_arith)
            requires
                sent_total(children) == det(m),
        ;
    }
}

/// The children of the first `k` columns of row 0 send, together, the first
/// `k` terms of the expansion along row 0.
pub proof fn lemma_channel_children_total(m: Seq<Seq<i64>>, k: int)
    requires
        2 <= m.len() == width(m),
        0 <= k <= m.len(),
    ensures
        sent_total(channel_children_sent(m, k)) == sum(row_terms(m), 0, k),
    decreases m.len(), k,
{
    if k > 0 {
        lemma_channel_children_total(m, k - 1);
        let sub = minor(m, 0, k - 1);
        lemma_minor_expandable(m, 0, k - 1);
        lemma_channel_sent_total(sub, m[0][k - 1] as int, (k - 1) % 2 == 0);
        lemma_sent_total_concat(
            channel_children_sent(m, k - 1),
            channel_sent(sub, m[0][k - 1] as int, (k - 1) % 2 == 0),
        );
        assert(signed(m[0][k - 1] as int, (k - 1) % 2 == 0) == alternating(k - 1) * m[0][k - 1]);
        assert(row_terms(m)(k - 1) == row_term(m, k - 1));
    }
}

/// What a shared-memory worker adds to its word is its coefficient, signed,
/// times the determinant, for every matrix with at least one row.
pub proof fn lemma_shm_added(m: Seq<Seq<i64>>, coefficient: int, is_positive: bool)
    requires
        m.len() >= 1,
    ensures
        shm_added(m, coefficient, is_positive) == signed(coefficient, is_positive) * det(m),
    decreases m.len(), m.len() + 1,
{
    if m.len() == 1 {
        lemma_det_single_row(m);
        lemma_signed_product(m[0][0] as int, coefficient, is_positive);
    } else {
        lemma_shm_children_added(m, m.len() as int);
        lemma_column_expansion_sum(m, m.len() as int);
        lemma_signed_product(det(m), coefficient, is_positive);
    }
}

/// Two shared-memory workers on the same matrix and coefficient with
/// opposite signs cancel: what the second adds to the word takes back what
/// the first added, so the word holds again the value it held before both.
pub proof fn lemma_shm_opposite_signs_cancel(
    m: Seq<Seq<i64>>,
    coefficient: int,
    is_positive: bool,
    before: int,
)
    requires
        m.len() >= 1,
    ensures
        shm_added(m, coefficient, is_positive) + shm_added(m, coefficient, !is_positive) == 0,
        before + shm_added(m, coefficient, is_positive) + shm_added(m, coefficient, !is_positive)
            == before,
{
    lemma_shm_added(m, coefficient, is_positive);
    lemma_shm_added(m, coefficient, !is_positive);
    assert(signed(coefficient, is_positive) * det(m) + signed(coefficient, !is_positive) * det(m)
        == 0) by (nonlinear_arith)
        requires
            signed(coefficient, is_positive) == -signed(coefficient, !is_positive),
    ;
}

proof fn lemma_word_round_trip(x: i64, y: u64)
    ensures
        (x as u64) as i64 == x,
        (y as i64) as u64 == y,
{
    assert((x as u64) as i64 == x) by (bit_vector);
    assert((y as i64) as u64 == y) by (bit_vector);
}

/// Folding the same child result into a word twice, once with each sign,
/// gives the word back: `shm_combine` with the opposite sign undoes it.
pub proof fn lemma_shm_combine_cancels(
    read_word: u64,
    result_word: u64,
    coefficient: i64,
    is_positive: bool,
)
    requires
        in_i64((result_word as i64) * coefficient),
        in_i64((read_word as i64) + signed((result_word as i64) * coefficient, is_positive)),
    ensures
        ({
            let first = ((read_word as i64) + signed((result_word as i64) * coefficient, is_positive)) as u64;
            &&& in_i64((first as i64) + signed((result_word as i64) * coefficient, !is_positive))
            &&& ((first as i64) + signed((result_word as i64) * coefficient, !is_positive)) as u64
                == read_word
        }),
{
    let read = read_word as i64;
    let change = signed((result_word as i64) * coefficient, is_positive);
    let v: i64 = (read + change) as i64;
    assert(v == read + change);
    lemma_word_round_trip(v, read_word);
    let first = (read + change) as u64;
    assert(first == v as u64);
    assert(first as i64 == v);
    assert(signed((result_word as i64) * coefficient, !is_positive) == -change);
    assert((first as i64) + signed((result_word as i64) * coefficient, !is_positive) == read);
}

/// The children of the first `k` rows add, together, the first `k` terms of
/// the expansion along column 0.
pub proof fn lemma_shm_children_added(m: Seq<Seq<i64>>, k: int)
    requires
        m.len() >= 2,
        0 <= k <= m.len(),
    ensures
        shm_children_added(m, k) == sum(column_terms(m), 0, k),
    decreases m.len(), k,
{
    if k > 0 {
        lemma_shm_children_added(m, k - 1);
        lemma_shm_added(minor(m, k - 1, 0), m[k - 1][0] as int, (k - 1) % 2 == 0);
        assert(signed(m[k - 1][0] as int, (k - 1) % 2 == 0) == alternating(k - 1) * m[k - 1][0]);
        assert(column_terms(m)(k - 1) == column_term(m, k - 1));
    }
}

// ---------------------------------------------------------------------------
// Threads over chained minors
// ---------------------------------------------------------------------------

/// `prefix` followed by the values of `rest`, or `None` with `rest`.
pub open spec fn then_values(prefix: Seq<i64>, rest: Option<Seq<i64>>) -> Option<Seq<i64>> {
    match rest {
        Some(t) => Some(prefix + t),
        None => None,
    }
}

/// What a thread reports from `cur` on, for the steps `(r, c)` of the grid
/// `1..=last` by `1..=last` (rows outer, columns inner) from `(r, c)` on: at
/// each step `cur` is replaced by its minor without row `r` and column `c`,
/// and whenever that minor has two rows its determinant, negated for odd
/// `r + c`, is reported. `None` where a step would read a missing entry or
/// leave the range of `i64`.
pub open spec fn thread_chain(cur: Seq<Seq<i64>>, last: int, r: int, c: int) -> Option<Seq<i64>>
    decreases last + 1 - r, last + 2 - c,
{
    if r > last {
        Some(seq![])
    } else if c > last {
        thread_chain(cur, last, r + 1, 1)
    } else if !rows_cover(cur, r, c) {
        None
    } else {
        let next = minor(cur, r, c);
        let rest = thread_chain(next, last, r, c + 1);
        if next.len() == 2 {
            let v = alternating(r + c) * det(next);
            if expandable(next) && determinant_fits(next, 1, true) && in_i64(v) {
                then_values(seq![v as i64], rest)
            } else {
                None
            }
        } else {
            rest
        }
    }
}

/// What thread `t` reports for `m`: the chain of minors begun with the minor
/// without row `t` and column 0, over the grid `1..=n-2` by `1..=n-2`;
/// `None` where it would fail (fewer than two rows among them).
pub open spec fn thread_report(m: Seq<Seq<i64>>, t: int) -> Option<Seq<i64>> {
    if m.len() < 2 || !rows_cover(m, t, 0) {
        None
    } else {
        thread_chain(minor(m, t, 0), m.len() - 2, 1, 1)
    }
}

/// Whether every row but `except` has the entries that the minor without
/// column `col` reads.
pub fn covers_minor_rows(matrix: &Vec<Vec<i64>>, except: usize, col: usize) -> (r: bool)
    ensures
        r == rows_cover(view_of(matrix), except as int, col as int),
{
    let ghost m = view_of(matrix);
    if matrix.len() == 0 {
        return true;
    }
    assert(m[0] == matrix@[0]@);
    let w = matrix[0].len();
    let need = if w > 0 && col == w - 1 {
        w - 1
    } else {
        w
    };
    assert(need == columns_read(width(m), col as int));
    let mut r: usize = 0;
    while r < matrix.len()
        invariant
            m == view_of(matrix),
            m.len() >= 1,
            need == columns_read(width(m), col as int),
            r <= m.len(),
            forall|k: int| 0 <= k < r && k != except ==> #[trigger] m[k].len() >= need,
        decreases m.len() - r,
    {
        assert(m[r as int] == matrix@[r as int]@);
        if r != except && matrix[r].len() < need {
            return false;
        }
        r = r + 1;
    }
    true
}

/// What thread `t` reports for `matrix`, or `None` where it would fail.
pub fn try_thread_partials(matrix: &Vec<Vec<i64>>, t: usize) -> (r: Option<Vec<i64>>)
    ensures
        r is None <==> thread_report(view_of(matrix), t as int) is None,
        r matches Some(v) ==> thread_report(view_of(matrix), t as int) == Some(v@),
{
    let ghost m = view_of(matrix);
    if matrix.len() < 2 || !covers_minor_rows(matrix, t, 0) {
        return None;
    }
    let last = matrix.len() - 2;
    let mut cur = select_minor(matrix, t, 0);
    let mut out: Vec<i64> = Vec::new();
    let mut r: usize = 1;
    assert(out@ + Seq::<i64>::empty() =~= out@);
    while r <= last
        invariant
            m == view_of(matrix),
            1 <= r <= last + 1,
            last < usize::MAX,
            thread_report(m, t as int) == then_values(
                out@,
                thread_chain(view_of(&cur), last as int, r as int, 1),
            ),
        decreases last + 1 - r,
    {
        let mut c: usize = 1;
        while c <= last
            invariant
                m == view_of(matrix),
                1 <= c <= last + 1,
                1 <= r <= last,
                last < usize::MAX,
                thread_report(m, t as int) == then_values(
                    out@,
                    thread_chain(view_of(&cur), last as int, r as int, c as int),
                ),
            decreases last + 1 - c,
        {
            let ghost cv = view_of(&cur);
            if !covers_minor_rows(&cur, r, c) {
                assert(thread_chain(cv, last as int, r as int, c as int) is None);
                return None;
            }
            let next = select_minor(&cur, r, c);
            let ghost nv = view_of(&next);
            let ghost rest = thread_chain(nv, last as int, r as int, c + 1);
            if next.len() == 2 {
                assert(nv.len() == 2);
                let d = match try_calculate_determinant(&next, 1, true) {
                    Some(d) => d,
                    None => {
                        assert(thread_chain(cv, last as int, r as int, c as int) is None);
                        return None;
                    },
                };
                let coeff: i64 = if (r % 2 + c % 2) % 2 == 0 {
                    1
                } else {
                    -1
                };
                assert(coeff == alternating(r + c));
                assert(signed(1, true) == 1);
                assert(1 * det(nv) == det(nv));
                assert(d == det(nv));
                let v = match coeff.checked_mul(d) {
                    Some(v) => v,
                    None => {
                        assert(thread_chain(cv, last as int, r as int, c as int) is None);
                        return None;
                    },
                };
                let ghost before = out@;
                out.push(v);
                assert(then_values(before, then_values(seq![v], rest)) == then_values(out@, rest))
                    by {
                    assert(before + seq![v] =~= out@);
                    if let Some(tail) = rest {
                        assert(before + (seq![v] + tail) =~= out@ + tail);
                    }
                }
            }
            cur = next;
            c = c + 1;
        }
        r = r + 1;
    }
    assert(out@ + Seq::<i64>::empty() =~= out@);
    Some(out)
}

/// What thread `t` reports for `matrix`: for each step of the chain of minors
/// that reaches two rows, that minor's determinant, negated for odd `r + c`.
pub fn thread_partials(matrix: &Vec<Vec<i64>>, t: usize) -> (r: Vec<i64>)
    requires
        thread_report(view_of(matrix), t as int) is Some,
    ensures
        thread_report(view_of(matrix), t as int) == Some(r@),
{
    match try_thread_partials(matrix, t) {
        Some(v) => v,
        None => {
            proof {
                assert(false);
            }
            Vec::new()
        },
    }
}

proof fn lemma_alternating_is_power(k: nat)
    ensures
        alternating(k as int) == pow(-1, k),
    decreases k,
{
    reveal(pow);
    if k > 0 {
        lemma_alternating_is_power((k - 1) as nat);
        assert(alternating(k as int) == -alternating(k - 1));
    }
}

/// One step `(r, c)` of a thread's chain of minors: the chain goes on from
/// the minor without row `r` and column `c`. When that minor has two rows,
/// the thread reports `(-1)^(r + c)` times its determinant first and then
/// what the rest of the chain reports; the report fails exactly when that
/// value or its determinant leaves `i64` or the rest fails. Otherwise the
/// step reports nothing of its own.
pub proof fn lemma_thread_step(cur: Seq<Seq<i64>>, last: int, r: int, c: int)
    requires
        1 <= r <= last,
        1 <= c <= last,
        rows_cover(cur, r, c),
    ensures
        ({
            let next = minor(cur, r, c);
            let value = pow(-1, (r + c) as nat) * det(next);
            &&& next.len() != 2 ==> thread_chain(cur, last, r, c) == thread_chain(
                next,
                last,
                r,
                c + 1,
            )
            &&& next.len() == 2 ==> (thread_chain(cur, last, r, c) is Some <==> expandable(next)
                && determinant_fits(next, 1, true) && in_i64(value) && thread_chain(
                next,
                last,
                r,
                c + 1,
            ) is Some)
            &&& next.len() == 2 ==> (thread_chain(cur, last, r, c) matches Some(vals) ==> {
                &&& vals.len() >= 1
                &&& vals[0] == value
                &&& thread_chain(next, last, r, c + 1) == Some(vals.drop_first())
            })
        }),
{
    lemma_alternating_is_power((r + c) as nat);
    let next = minor(cur, r, c);
    let v = alternating(r + c) * det(next);
    if next.len() == 2 {
        if let Some(tail) = thread_chain(next, last, r, c + 1) {
            if expandable(next) && determinant_fits(next, 1, true) && in_i64(v) {
                let vals = seq![v as i64] + tail;
                assert(vals.drop_first() =~= tail);
                assert(vals[0] == v);
            }
        }
    }
}

/// The grid a thread walks: it begins at step `(1, 1)` on the minor without
/// row `t` and column 0, with `n - 2` steps in each direction; after the last
/// column of a row it goes on at column 1 of the next row; after the last
/// row it reports nothing more.
pub proof fn lemma_thread_grid(m: Seq<Seq<i64>>, t: int, cur: Seq<Seq<i64>>, last: int, r: int, c: int)
    ensures
        m.len() >= 2 && rows_cover(m, t, 0) ==> thread_report(m, t) == thread_chain(
            minor(m, t, 0),
            m.len() - 2,
            1,
            1,
        ),
        m.len() < 2 ==> thread_report(m, t) is None,
        r > last ==> thread_chain(cur, last, r, c) == Some(Seq::<i64>::empty()),
        r <= last && c > last ==> thread_chain(cur, last, r, c) == thread_chain(cur, last, r + 1, 1),
        r <= last && c <= last && !rows_cover(cur, r, c) ==> thread_chain(cur, last, r, c) is None,
{
}

} // verus!
