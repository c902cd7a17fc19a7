//! The text format of a matrix: one row per line, the entries of a row
//! separated by single whitespace characters, each entry a decimal `i64`.
use vstd::prelude::*;

use crate::matrix::{in_i64, view_of};

verus! {

// ---------------------------------------------------------------------------
// Separators and pieces
// ---------------------------------------------------------------------------

/// Holds of the one-byte whitespace characters: tab, line feed, vertical
/// tab, form feed, carriage return and space.
pub open spec fn is_ascii_space(b: u8) -> bool {
    (9 <= b <= 13) || b == 32
}

/// The length of the UTF-8 encoding of a whitespace character (in the sense
/// of `char::is_whitespace`) that starts at `i`, or 0 when none does.
pub open spec fn whitespace_len(s: Seq<u8>, i: int) -> int {
    if 0 <= i < s.len() && is_ascii_space(s[i]) {
        1
    } else if 0 <= i && i + 1 < s.len() && s[i] == 0xC2 && (s[i + 1] == 0x85 || s[i + 1] == 0xA0) {
        2
    } else if 0 <= i && i + 2 < s.len() && ((s[i] == 0xE1 && s[i + 1] == 0x9A && s[i + 2] == 0x80)
        || (s[i] == 0xE2 && s[i + 1] == 0x80 && ((0x80 <= s[i + 2] <= 0x8A) || s[i + 2] == 0xA8
        || s[i + 2] == 0xA9 || s[i + 2] == 0xAF)) || (s[i] == 0xE2 && s[i + 1] == 0x81 && s[i + 2]
        == 0x9F) || (s[i] == 0xE3 && s[i + 1] == 0x80 && s[i + 2] == 0x80)) {
        3
    } else {
        0
    }
}

/// The length of the separator at `i`: a whitespace character when
/// `by_whitespace`, a line feed otherwise; 0 when there is none.
pub open spec fn separator_len(s: Seq<u8>, i: int, by_whitespace: bool) -> int {
    if by_whitespace {
        whitespace_len(s, i)
    } else if 0 <= i < s.len() && s[i] == 10 {
        1
    } else {
        0
    }
}

/// The pieces of `s` between separators, scanning from `i` with the current
/// piece begun at `start`. Two adjacent separators enclose an empty piece, and
/// there is always a last piece, perhaps empty.
pub open spec fn pieces_from(s: Seq<u8>, by_whitespace: bool, i: int, start: int) -> Seq<Seq<u8>>
    decreases s.len() - i,
{
    if i >= s.len() {
        seq![s.subrange(start, s.len() as int)]
    } else if separator_len(s, i, by_whitespace) > 0 {
        let next = i + separator_len(s, i, by_whitespace);
        seq![s.subrange(start, i)] + pieces_from(s, by_whitespace, next, next)
    } else {
        pieces_from(s, by_whitespace, i + 1, start)
    }
}

/// The pieces of `s` between its separators, in order.
pub open spec fn pieces(s: Seq<u8>, by_whitespace: bool) -> Seq<Seq<u8>> {
    pieces_from(s, by_whitespace, 0, 0)
}

/// The fields of a line: its pieces between whitespace characters.
pub open spec fn fields(line: Seq<u8>) -> Seq<Seq<u8>> {
    pieces(line, true)
}

/// A line without the carriage return that ended it.
pub open spec fn strip_cr(l: Seq<u8>) -> Seq<u8> {
    if l.len() > 0 && l.last() == 13 {
        l.drop_last()
    } else {
        l
    }
}

/// The lines of a text: the pieces between line feeds, without an empty
/// piece after the last line feed, each line that a line feed ends without a
/// carriage return before it.
pub open spec fn lines(s: Seq<u8>) -> Seq<Seq<u8>> {
    let raw = pieces(s, false);
    let n = if raw.last().len() == 0 {
        raw.len() - 1
    } else {
        raw.len() as int
    };
    Seq::new(
        n as nat,
        |k: int|
            if k < raw.len() - 1 {
                strip_cr(raw[k])
            } else {
                raw[k]
            },
    )
}

// ---------------------------------------------------------------------------
// Numbers
// ---------------------------------------------------------------------------

/// Holds of the bytes `'0'` to `'9'`.
pub open spec fn is_digit(b: u8) -> bool {
    48 <= b <= 57
}

/// The value of a string of decimal digits.
pub open spec fn digits_value(ds: Seq<u8>) -> int
    decreases ds.len(),
{
    if ds.len() == 0 {
        0
    } else {
        digits_value(ds.drop_last()) * 10 + (ds.last() - 48)
    }
}

/// The number that a string of digits stands for, negated when `negative`:
/// `None` when the string is empty, holds a byte that is no digit, or stands
/// for a number beyond `i64`.
pub open spec fn number_of(negative: bool, ds: Seq<u8>) -> Option<i64> {
    let v = if negative {
        -digits_value(ds)
    } else {
        digits_value(ds)
    };
    if ds.len() > 0 && (forall|k: int| 0 <= k < ds.len() ==> is_digit(#[trigger] ds[k])) && in_i64(
        v,
    ) {
        Some(v as i64)
    } else {
        None
    }
}

/// The number a field stands for, as `i64::from_str` reads it: an optional
/// `-` or `+`, then one or more decimal digits, the value within `i64`.
pub open spec fn parse_i64(t: Seq<u8>) -> Option<i64> {
    if t.len() > 0 && t[0] == 45 {
        number_of(true, t.skip(1))
    } else if t.len() > 0 && t[0] == 43 {
        number_of(false, t.skip(1))
    } else {
        number_of(false, t)
    }
}

/// The numbers of a sequence of fields, or `None` when one of them is not a
/// number.
pub open spec fn parse_fields(toks: Seq<Seq<u8>>) -> Option<Seq<i64>>
    decreases toks.len(),
{
    if toks.len() == 0 {
        Some(seq![])
    } else {
        match (parse_fields(toks.drop_last()), parse_i64(toks.last())) {
            (Some(front), Some(x)) => Some(front.push(x)),
            _ => None,
        }
    }
}

/// The rows of a sequence of lines, or `None` when a field of one of them is
/// not a number.
pub open spec fn parse_rows(ls: Seq<Seq<u8>>) -> Option<Seq<Seq<i64>>>
    decreases ls.len(),
{
    if ls.len() == 0 {
        Some(seq![])
    } else {
        match (parse_rows(ls.drop_last()), parse_fields(fields(ls.last()))) {
            (Some(front), Some(row)) => Some(front.push(row)),
            _ => None,
        }
    }
}

/// The matrix that a text stands for: a row per line, an entry per field.
pub open spec fn matrix_of_text(s: Seq<u8>) -> Option<Seq<Seq<i64>>> {
    parse_rows(lines(s))
}

/// The bytes of each piece.
pub open spec fn byte_rows(v: &Vec<Vec<u8>>) -> Seq<Seq<u8>> {
    v@.map_values(|p: Vec<u8>| p@)
}

// ---------------------------------------------------------------------------
// Facts about the model
// ---------------------------------------------------------------------------

proof fn lemma_digits_step(ds: Seq<u8>, j: int)
    requires
        0 <= j < ds.len(),
    ensures
        digits_value(ds.take(j + 1)) == digits_value(ds.take(j)) * 10 + (ds[j] - 48),
{
    assert(ds.take(j + 1).drop_last() =~= ds.take(j));
}

proof fn lemma_digits_nonnegative(ds: Seq<u8>)
    requires
        forall|k: int| 0 <= k < ds.len() ==> is_digit(#[trigger] ds[k]),
    ensures
        digits_value(ds) >= 0,
    decreases ds.len(),
{
    if ds.len() > 0 {
        let front = ds.drop_last();
        assert forall|k: int| 0 <= k < front.len() implies is_digit(#[trigger] front[k]) by {
            assert(front[k] == ds[k]);
        }
        lemma_digits_nonnegative(front);
        assert(is_digit(ds[ds.len() - 1]));
    }
}

/// A prefix of a string of digits has no larger value than the whole.
proof fn lemma_digits_prefix(ds: Seq<u8>, j: int)
    requires
        0 <= j <= ds.len(),
        forall|k: int| 0 <= k < ds.len() ==> is_digit(#[trigger] ds[k]),
    ensures
        digits_value(ds.take(j)) <= digits_value(ds),
    decreases ds.len(),
{
    if j == ds.len() {
        assert(ds.take(j) =~= ds);
    } else {
        let front = ds.drop_last();
        assert forall|k: int| 0 <= k < front.len() implies is_digit(#[trigger] front[k]) by {
            assert(front[k] == ds[k]);
        }
        lemma_digits_prefix(front, j);
        assert(front.take(j) =~= ds.take(j));
        lemma_digits_nonnegative(front);
        assert(is_digit(ds[ds.len() - 1]));
    }
}

/// When a prefix of the digits is already beyond `u64`, the field is no
/// number of `i64`.
proof fn lemma_too_many_digits(ds: Seq<u8>, j: int)
    requires
        0 <= j <= ds.len(),
        digits_value(ds.take(j)) > u64::MAX,
    ensures
        (forall|x: int| 0 <= x < ds.len() ==> is_digit(#[trigger] ds[x])) ==> digits_value(ds)
            > u64::MAX,
{
    if forall|x: int| 0 <= x < ds.len() ==> is_digit(#[trigger] ds[x]) {
        lemma_digits_prefix(ds, j);
    }
}

proof fn lemma_parse_fields_prefix_fails(toks: Seq<Seq<u8>>, j: int)
    requires
        0 <= j <= toks.len(),
        parse_fields(toks.take(j)) is None,
    ensures
        parse_fields(toks) is None,
    decreases toks.len() - j,
{
    if j == toks.len() {
        assert(toks.take(j) =~= toks);
    } else {
        assert(toks.take(j + 1).drop_last() =~= toks.take(j));
        lemma_parse_fields_prefix_fails(toks, j + 1);
    }
}

proof fn lemma_parse_rows_prefix_fails(ls: Seq<Seq<u8>>, j: int)
    requires
        0 <= j <= ls.len(),
        parse_rows(ls.take(j)) is None,
    ensures
        parse_rows(ls) is None,
    decreases ls.len() - j,
{
    if j == ls.len() {
        assert(ls.take(j) =~= ls);
    } else {
        assert(ls.take(j + 1).drop_last() =~= ls.take(j));
        lemma_parse_rows_prefix_fails(ls, j + 1);
    }
}

// ---------------------------------------------------------------------------
// Splitting
// ---------------------------------------------------------------------------

fn is_ascii_space_byte(b: u8) -> (r: bool)
    ensures
        r == is_ascii_space(b),
{
    (9 <= b && b <= 13) || b == 32
}

/// The length of the separator that starts at `i`.
fn separator_at(s: &[u8], i: usize, by_whitespace: bool) -> (n: usize)
    requires
        i < s@.len(),
    ensures
        n == separator_len(s@, i as int, by_whitespace),
{
    let len = s.len();
    if !by_whitespace {
        return if s[i] == 10 {
            1
        } else {
            0
        };
    }
    if is_ascii_space_byte(s[i]) {
        1
    } else if len - i > 1 && s[i] == 0xC2 && (s[i + 1] == 0x85 || s[i + 1] == 0xA0) {
        2
    } else if len - i > 2 && ((s[i] == 0xE1 && s[i + 1] == 0x9A && s[i + 2] == 0x80) || (s[i]
        == 0xE2 && s[i + 1] == 0x80 && ((0x80 <= s[i + 2] && s[i + 2] <= 0x8A) || s[i + 2] == 0xA8
        || s[i + 2] == 0xA9 || s[i + 2] == 0xAF)) || (s[i] == 0xE2 && s[i + 1] == 0x81 && s[i + 2]
        == 0x9F) || (s[i] == 0xE3 && s[i + 1] == 0x80 && s[i + 2] == 0x80)) {
        3
    } else {
        0
    }
}

/// The pieces of `s` between separators (whitespace characters, or line
/// feeds), in order.
fn split_pieces(s: &[u8], by_whitespace: bool) -> (r: Vec<Vec<u8>>)
    ensures
        byte_rows(&r) == pieces(s@, by_whitespace),
        r@.len() >= 1,
{
    let len = s.len();
    let mut acc: Vec<Vec<u8>> = Vec::new();
    let mut cur: Vec<u8> = Vec::new();
    let mut i: usize = 0;
    let mut start: usize = 0;
    while i < len
        invariant
            len == s@.len(),
            start <= i <= len,
            cur@ == s@.subrange(start as int, i as int),
            pieces(s@, by_whitespace) == byte_rows(&acc) + pieces_from(
                s@,
                by_whitespace,
                i as int,
                start as int,
            ),
        decreases len - i,
    {
        let sep = separator_at(s, i, by_whitespace);
        if sep > 0 {
            let ghost rest = pieces_from(s@, by_whitespace, i + sep, i + sep);
            let ghost before = byte_rows(&acc);
            assert(pieces_from(s@, by_whitespace, i as int, start as int) == seq![
                s@.subrange(start as int, i as int),
            ] + rest);
            acc.push(cur);
            assert(byte_rows(&acc) =~= before.push(s@.subrange(start as int, i as int)));
            assert(before + (seq![s@.subrange(start as int, i as int)] + rest) =~= byte_rows(&acc)
                + rest);
            cur = Vec::new();
            i = i + sep;
            start = i;
            assert(cur@ =~= s@.subrange(start as int, i as int));
        } else {
            cur.push(s[i]);
            i = i + 1;
            assert(cur@ =~= s@.subrange(start as int, i as int));
        }
    }
    let ghost before = byte_rows(&acc);
    acc.push(cur);
    assert(byte_rows(&acc) =~= before + seq![s@.subrange(start as int, len as int)]);
    acc
}

/// A copy of bytes `from..to` of `v`.
fn copy_range(v: &Vec<u8>, from: usize, to: usize) -> (r: Vec<u8>)
    requires
        from <= to <= v@.len(),
    ensures
        r@ == v@.subrange(from as int, to as int),
{
    let mut r: Vec<u8> = Vec::new();
    let mut k = from;
    while k < to
        invariant
            from <= k <= to <= v@.len(),
            r@ == v@.subrange(from as int, k as int),
        decreases to - k,
    {
        r.push(v[k]);
        k = k + 1;
        assert(r@ =~= v@.subrange(from as int, k as int));
    }
    r
}

/// The lines of a text, as `BufRead::lines` yields them.
fn split_lines(s: &[u8]) -> (r: Vec<Vec<u8>>)
    ensures
        byte_rows(&r) == lines(s@),
{
    let raw = split_pieces(s, false);
    let ghost rv = byte_rows(&raw);
    let n = raw.len();
    assert(rv[n - 1] == raw@[n - 1]@);
    let count = if raw[n - 1].len() == 0 {
        n - 1
    } else {
        n
    };
    let mut out: Vec<Vec<u8>> = Vec::new();
    let mut k: usize = 0;
    while k < count
        invariant
            rv == byte_rows(&raw),
            rv == pieces(s@, false),
            n == rv.len(),
            n >= 1,
            count <= n,
            count == lines(s@).len(),
            k <= count,
            forall|x: int| 0 <= x < k ==> #[trigger] byte_rows(&out)[x] == lines(s@)[x],
            out@.len() == k,
        decreases count - k,
    {
        let piece = &raw[k];
        assert(rv[k as int] == piece@);
        let len = piece.len();
        let line = if k + 1 < n && len > 0 && piece[len - 1] == 13 {
            copy_range(piece, 0, len - 1)
        } else {
            copy_range(piece, 0, len)
        };
        let ghost line_view = line@;
        assert(line_view == lines(s@)[k as int]) by {
            assert(piece@.subrange(0, len as int) =~= piece@);
            if len > 0 {
                assert(piece@.drop_last() =~= piece@.subrange(0, len - 1));
            }
        }
        let ghost before = out@;
        let ghost before_rows = byte_rows(&out);
        out.push(line);
        assert forall|x: int| 0 <= x < k + 1 implies #[trigger] byte_rows(&out)[x] == lines(s@)[x] by {
            if x < k {
                assert(out@[x] == before[x]);
                assert(before_rows[x] == lines(s@)[x]);
            } else {
                assert(out@[x]@ == line_view);
            }
        }
        k = k + 1;
    }
    assert(byte_rows(&out) =~= lines(s@));
    out
}

// ---------------------------------------------------------------------------
// Parsing
// ---------------------------------------------------------------------------

/// The number that bytes `first..` of `t` stand for as digits, negated when
/// `negative`.
fn parse_digits(t: &Vec<u8>, first: usize, negative: bool) -> (r: Option<i64>)
    requires
        first <= t@.len(),
    ensures
        r == number_of(negative, t@.subrange(first as int, t@.len() as int)),
{
    let len = t.len();
    let ghost ds = t@.subrange(first as int, len as int);
    if first >= len {
        return None;
    }
    let mut mag: u64 = 0;
    let mut k: usize = first;
    assert(ds.take(0) =~= Seq::<u8>::empty());
    while k < len
        invariant
            len == t@.len(),
            first <= k <= len,
            ds == t@.subrange(first as int, len as int),
            mag == digits_value(ds.take(k - first)),
            forall|x: int| 0 <= x < k - first ==> is_digit(#[trigger] ds[x]),
        decreases len - k,
    {
        let b = t[k];
        assert(ds[k - first] == b);
        if b < 48 || b > 57 {
            assert(!is_digit(ds[k - first]));
            return None;
        }
        proof {
            lemma_digits_step(ds, k - first);
        }
        let next = match mag.checked_mul(10) {
            Some(x) => x.checked_add((b - 48) as u64),
            None => None,
        };
        match next {
            Some(x) => {
                mag = x;
            },
            None => {
                proof {
                    lemma_too_many_digits(ds, k - first + 1);
                }
                return None;
            },
        }
        k = k + 1;
    }
    assert(ds.take(len - first) =~= ds);
    if negative {
        if mag <= 9223372036854775808 {
            if mag == 9223372036854775808 {
                Some(i64::MIN)
            } else {
                Some(-(mag as i64))
            }
        } else {
            None
        }
    } else {
        if mag <= 9223372036854775807 {
            Some(mag as i64)
        } else {
            None
        }
    }
}

/// The number that a field stands for, as `i64::from_str` reads it.
fn parse_field(t: &Vec<u8>) -> (r: Option<i64>)
    ensures
        r == parse_i64(t@),
{
    if t.len() == 0 {
        return None;
    }
    assert(t@.skip(1) =~= t@.subrange(1, t@.len() as int));
    assert(t@ =~= t@.subrange(0, t@.len() as int));
    if t[0] == 45 {
        parse_digits(t, 1, true)
    } else if t[0] == 43 {
        parse_digits(t, 1, false)
    } else {
        parse_digits(t, 0, false)
    }
}

/// The matrix that a text stands for: one row per line, as `BufRead::lines`
/// splits it; one entry per field of the line, the fields separated by single
/// whitespace characters (so that two adjacent ones enclose an empty field),
/// each entry read as `i64::from_str` reads it. `None` when a field is not a
/// number of `i64`.
pub fn parse_matrix(text: &[u8]) -> (r: Option<Vec<Vec<i64>>>)
    ensures
        r is None <==> matrix_of_text(text@) is None,
        r matches Some(v) ==> matrix_of_text(text@) == Some(view_of(&v)),
{
    let ls = split_lines(text);
    let ghost lv = byte_rows(&ls);
    let mut rows: Vec<Vec<i64>> = Vec::new();
    let mut k: usize = 0;
    assert(lv.take(0) =~= Seq::<Seq<u8>>::empty());
    assert(view_of(&rows) =~= Seq::<Seq<i64>>::empty());
    while k < ls.len()
        invariant
            lv == byte_rows(&ls),
            lv == lines(text@),
            k <= lv.len(),
            parse_rows(lv.take(k as int)) == Some(view_of(&rows)),
        decreases lv.len() - k,
    {
        assert(lv[k as int] == ls@[k as int]@);
        let fs = split_pieces(ls[k].as_slice(), true);
        let ghost fv = byte_rows(&fs);
        assert(fv == fields(lv[k as int]));
        let mut row: Vec<i64> = Vec::new();
        let mut j: usize = 0;
        assert(fv.take(0) =~= Seq::<Seq<u8>>::empty());
        assert(row@ =~= Seq::<i64>::empty());
        while j < fs.len()
            invariant
                fv == byte_rows(&fs),
                lv == byte_rows(&ls),
                lv == lines(text@),
                k < lv.len(),
                fv == fields(lv[k as int]),
                parse_rows(lv.take(k as int)) == Some(view_of(&rows)),
                j <= fv.len(),
                parse_fields(fv.take(j as int)) == Some(row@),
            decreases fv.len() - j,
        {
            assert(fv[j as int] == fs@[j as int]@);
            assert(fv.take(j + 1).drop_last() =~= fv.take(j as int));
            match parse_field(&fs[j]) {
                Some(x) => {
                    row.push(x);
                },
                None => {
                    proof {
                        lemma_parse_fields_prefix_fails(fv, j + 1);
                        assert(lv.take(k + 1).drop_last() =~= lv.take(k as int));
                        assert(fv =~= fields(lv.take(k + 1).last()));
                        lemma_parse_rows_prefix_fails(lv, k + 1);
                    }
                    return None;
                },
            }
            j = j + 1;
        }
        assert(fv.take(j as int) =~= fv);
        assert(lv.take(k + 1).drop_last() =~= lv.take(k as int));
        let ghost before = view_of(&rows);
        let ghost row_view = row@;
        rows.push(row);
        assert(view_of(&rows) =~= before.push(row_view));
        k = k + 1;
    }
    assert(lv.take(lv.len() as int) =~= lv);
    Some(rows)
}

// ---------------------------------------------------------------------------
// Writing a matrix as text, and reading it back
// ---------------------------------------------------------------------------

/// The decimal digits of `n`, most significant first, without leading zeros.
pub open spec fn decimal_digits(n: nat) -> Seq<u8>
    decreases n,
{
    if n < 10 {
        seq![(48 + n) as u8]
    } else {
        decimal_digits(n / 10).push((48 + n % 10) as u8)
    }
}

/// `x` in decimal, with `-` before a negative number.
pub open spec fn decimal(x: i64) -> Seq<u8> {
    if x < 0 {
        seq![45u8] + decimal_digits((-x) as nat)
    } else {
        decimal_digits(x as nat)
    }
}

/// Fields joined by single spaces.
pub open spec fn join_fields(fs: Seq<Seq<u8>>) -> Seq<u8>
    decreases fs.len(),
{
    if fs.len() == 0 {
        seq![]
    } else if fs.len() == 1 {
        fs[0]
    } else {
        fs[0] + seq![32u8] + join_fields(fs.drop_first())
    }
}

/// A row as a line: its entries in decimal, separated by single spaces.
pub open spec fn row_text(row: Seq<i64>) -> Seq<u8> {
    join_fields(row.map_values(|x: i64| decimal(x)))
}

/// A matrix as text: each row as a line, each line ended by a line feed.
pub open spec fn text_of(m: Seq<Seq<i64>>) -> Seq<u8>
    decreases m.len(),
{
    if m.len() == 0 {
        seq![]
    } else {
        row_text(m[0]) + seq![10u8] + text_of(m.drop_first())
    }
}

/// Holds of the bytes a decimal number is written with.
pub open spec fn is_number_byte(b: u8) -> bool {
    is_digit(b) || b == 45
}

/// No byte of `t` begins a separator: for fields, every byte is a digit or
/// `-`; for lines, no byte is a line feed.
pub open spec fn separator_free(t: Seq<u8>, by_whitespace: bool) -> bool {
    forall|k: int|
        0 <= k < t.len() ==> if by_whitespace {
            is_number_byte(#[trigger] t[k])
        } else {
            t[k] != 10
        }
}

proof fn lemma_decimal_digits(n: nat)
    ensures
        decimal_digits(n).len() > 0,
        forall|k: int|
            0 <= k < decimal_digits(n).len() ==> is_digit(#[trigger] decimal_digits(n)[k]),
        digits_value(decimal_digits(n)) == n,
    decreases n,
{
    let d = decimal_digits(n);
    if n < 10 {
        assert(d.drop_last() =~= Seq::<u8>::empty());
        assert(digits_value(Seq::<u8>::empty()) == 0);
        assert(d.last() == (48 + n) as u8);
        assert(((48 + n) as u8) as int == 48 + n);
    } else {
        lemma_decimal_digits(n / 10);
        let front = decimal_digits(n / 10);
        assert(d.drop_last() =~= front);
        assert(forall|k: int| 0 <= k < front.len() ==> d[k] == front[k]);
        assert((n / 10) * 10 + n % 10 == n);
        assert(d.last() == (48 + n % 10) as u8);
        assert(((48 + n % 10) as u8) as int == 48 + n % 10);
        assert(digits_value(d) == digits_value(front) * 10 + (d.last() - 48));
    }
}

proof fn lemma_decimal(x: i64)
    ensures
        parse_i64(decimal(x)) == Some(x),
        decimal(x).len() > 0,
        separator_free(decimal(x), true),
        separator_free(decimal(x), false),
        is_digit(decimal(x).last()),
{
    if x < 0 {
        let n = (-x) as nat;
        lemma_decimal_digits(n);
        let t = decimal(x);
        let d = decimal_digits(n);
        assert(t.skip(1) =~= d);
        assert(forall|k: int| 0 < k < t.len() ==> t[k] == d[k - 1]);
        assert(t.last() == d.last());
    } else {
        lemma_decimal_digits(x as nat);
        let d = decimal_digits(x as nat);
        assert(is_digit(d[0]));
    }
}

/// Scanning over bytes that begin no separator changes nothing.
proof fn lemma_scan(s: Seq<u8>, by_whitespace: bool, i: int, e: int, start: int)
    requires
        0 <= i <= e <= s.len(),
        forall|k: int| i <= k < e ==> #[trigger] separator_len(s, k, by_whitespace) == 0,
    ensures
        pieces_from(s, by_whitespace, i, start) == pieces_from(s, by_whitespace, e, start),
    decreases e - i,
{
    if i < e {
        assert(separator_len(s, i, by_whitespace) == 0);
        lemma_scan(s, by_whitespace, i + 1, e, start);
    }
}

/// Pieces of the part of a text after a prefix are the pieces of that part
/// alone.
proof fn lemma_shift(p: Seq<u8>, u: Seq<u8>, by_whitespace: bool, i: int, start: int)
    requires
        0 <= start <= i <= u.len(),
    ensures
        pieces_from(p + u, by_whitespace, p.len() + i, p.len() + start) == pieces_from(
            u,
            by_whitespace,
            i,
            start,
        ),
    decreases u.len() - i,
{
    let s = p + u;
    let q = p.len() as int;
    if i < u.len() {
        assert(s[q + i] == u[i]);
        if i + 1 < u.len() {
            assert(s[q + i + 1] == u[i + 1]);
        }
        if i + 2 < u.len() {
            assert(s[q + i + 2] == u[i + 2]);
        }
        assert(separator_len(s, q + i, by_whitespace) == separator_len(u, i, by_whitespace));
        let l = separator_len(u, i, by_whitespace);
        if l > 0 {
            assert(s.subrange(q + start, q + i) =~= u.subrange(start, i));
            lemma_shift(p, u, by_whitespace, i + l, i + l);
        } else {
            lemma_shift(p, u, by_whitespace, i + 1, start);
        }
    } else {
        assert(s.subrange(q + start, s.len() as int) =~= u.subrange(start, u.len() as int));
    }
}

proof fn lemma_free_scan(s: Seq<u8>, t: Seq<u8>, by_whitespace: bool)
    requires
        separator_free(t, by_whitespace),
        t.len() <= s.len(),
        forall|k: int| 0 <= k < t.len() ==> s[k] == t[k],
    ensures
        forall|k: int| 0 <= k < t.len() ==> #[trigger] separator_len(s, k, by_whitespace) == 0,
{
    assert forall|k: int| 0 <= k < t.len() implies #[trigger] separator_len(s, k, by_whitespace)
        == 0 by {
        assert(s[k] == t[k]);
        if by_whitespace {
            assert(is_number_byte(t[k]));
        } else {
            assert(t[k] != 10);
        }
    }
}

/// A piece free of separators, a one-byte separator, then the rest.
proof fn lemma_split_first(t: Seq<u8>, b: u8, u: Seq<u8>, by_whitespace: bool)
    requires
        separator_free(t, by_whitespace),
        separator_len(t + seq![b] + u, t.len() as int, by_whitespace) == 1,
    ensures
        pieces(t + seq![b] + u, by_whitespace) == seq![t] + pieces(u, by_whitespace),
{
    let p = t + seq![b];
    let s = p + u;
    assert(t + seq![b] + u == s);
    lemma_free_scan(s, t, by_whitespace);
    lemma_scan(s, by_whitespace, 0, t.len() as int, 0);
    assert(s.subrange(0, t.len() as int) =~= t);
    lemma_shift(p, u, by_whitespace, 0, 0);
}

proof fn lemma_single_piece(t: Seq<u8>, by_whitespace: bool)
    requires
        separator_free(t, by_whitespace),
    ensures
        pieces(t, by_whitespace) == seq![t],
{
    lemma_free_scan(t, t, by_whitespace);
    lemma_scan(t, by_whitespace, 0, t.len() as int, 0);
    assert(t.subrange(0, t.len() as int) =~= t);
}

/// Fields free of separators, joined by single spaces, split back into the
/// same fields.
proof fn lemma_join_fields(fs: Seq<Seq<u8>>)
    requires
        fs.len() >= 1,
        forall|k: int| 0 <= k < fs.len() ==> separator_free(#[trigger] fs[k], true),
        forall|k: int| 0 <= k < fs.len() ==> (#[trigger] fs[k]).len() > 0,
        forall|k: int| 0 <= k < fs.len() ==> is_digit((#[trigger] fs[k]).last()),
    ensures
        fields(join_fields(fs)) == fs,
        separator_free(join_fields(fs), false),
        join_fields(fs).len() > 0,
        is_digit(join_fields(fs).last()),
    decreases fs.len(),
{
    assert(separator_free(fs[0], true));
    if fs.len() == 1 {
        lemma_single_piece(fs[0], true);
        assert(seq![fs[0]] =~= fs);
        assert(fs[0].len() > 0);
        assert(is_digit(fs[0].last()));
        assert forall|k: int| 0 <= k < fs[0].len() implies (#[trigger] fs[0][k]) != 10 by {
            assert(is_number_byte(fs[0][k]));
        }
    } else {
        let rest = fs.drop_first();
        assert forall|k: int| 0 <= k < rest.len() implies separator_free(#[trigger] rest[k], true)
            by {
            assert(rest[k] == fs[k + 1]);
        }
        assert forall|k: int| 0 <= k < rest.len() implies (#[trigger] rest[k]).len() > 0 by {
            assert(rest[k] == fs[k + 1]);
        }
        assert forall|k: int| 0 <= k < rest.len() implies is_digit((#[trigger] rest[k]).last()) by {
            assert(rest[k] == fs[k + 1]);
        }
        lemma_join_fields(rest);
        let j = join_fields(rest);
        let whole = fs[0] + seq![32u8] + j;
        assert(join_fields(fs) == whole);
        assert(whole[fs[0].len() as int] == 32u8);
        lemma_split_first(fs[0], 32u8, j, true);
        assert(seq![fs[0]] + rest =~= fs);
        assert(whole.last() == j.last());
        assert forall|k: int| 0 <= k < whole.len() implies (#[trigger] whole[k]) != 10 by {
            if k < fs[0].len() {
                assert(is_number_byte(fs[0][k]));
            } else if k > fs[0].len() {
                assert(whole[k] == j[k - fs[0].len() - 1]);
            }
        }
    }
}

proof fn lemma_row_text(row: Seq<i64>)
    requires
        row.len() > 0,
    ensures
        fields(row_text(row)) == row.map_values(|x: i64| decimal(x)),
        separator_free(row_text(row), false),
        row_text(row).len() > 0,
        is_digit(row_text(row).last()),
{
    let fs = row.map_values(|x: i64| decimal(x));
    assert forall|k: int| 0 <= k < fs.len() implies {
        &&& separator_free(#[trigger] fs[k], true)
        &&& fs[k].len() > 0
        &&& is_digit(fs[k].last())
    } by {
        lemma_decimal(row[k]);
    }
    lemma_join_fields(fs);
}

proof fn lemma_parse_decimals(row: Seq<i64>, k: int)
    requires
        0 <= k <= row.len(),
    ensures
        parse_fields(row.map_values(|x: i64| decimal(x)).take(k)) == Some(row.take(k)),
    decreases k,
{
    let fs = row.map_values(|x: i64| decimal(x));
    if k == 0 {
        assert(fs.take(0) =~= Seq::<Seq<u8>>::empty());
        assert(row.take(0) =~= Seq::<i64>::empty());
    } else {
        lemma_parse_decimals(row, k - 1);
        assert(fs.take(k).drop_last() =~= fs.take(k - 1));
        lemma_decimal(row[k - 1]);
        assert(row.take(k - 1).push(row[k - 1]) =~= row.take(k));
    }
}

proof fn lemma_text_pieces(m: Seq<Seq<i64>>)
    requires
        forall|r: int| 0 <= r < m.len() ==> (#[trigger] m[r]).len() > 0,
    ensures
        pieces(text_of(m), false) == m.map_values(|row: Seq<i64>| row_text(row)) + seq![
            Seq::<u8>::empty(),
        ],
    decreases m.len(),
{
    if m.len() == 0 {
        assert(text_of(m) =~= Seq::<u8>::empty());
        assert(text_of(m).subrange(0, 0) =~= Seq::<u8>::empty());
        assert(m.map_values(|row: Seq<i64>| row_text(row)) + seq![Seq::<u8>::empty()] =~= seq![
            Seq::<u8>::empty(),
        ]);
    } else {
        let rest = m.drop_first();
        assert forall|r: int| 0 <= r < rest.len() implies (#[trigger] rest[r]).len() > 0 by {
            assert(rest[r] == m[r + 1]);
        }
        lemma_text_pieces(rest);
        assert(m[0].len() > 0);
        lemma_row_text(m[0]);
        let t = row_text(m[0]);
        let u = text_of(rest);
        assert((t + seq![10u8] + u)[t.len() as int] == 10u8);
        lemma_split_first(t, 10u8, u, false);
        assert(seq![t] + (rest.map_values(|row: Seq<i64>| row_text(row)) + seq![
            Seq::<u8>::empty(),
        ]) =~= m.map_values(|row: Seq<i64>| row_text(row)) + seq![Seq::<u8>::empty()]);
    }
}

proof fn lemma_parse_row_texts(m: Seq<Seq<i64>>, k: int)
    requires
        0 <= k <= m.len(),
        forall|r: int| 0 <= r < m.len() ==> (#[trigger] m[r]).len() > 0,
    ensures
        parse_rows(m.map_values(|row: Seq<i64>| row_text(row)).take(k)) == Some(m.take(k)),
    decreases k,
{
    let ls = m.map_values(|row: Seq<i64>| row_text(row));
    if k == 0 {
        assert(ls.take(0) =~= Seq::<Seq<u8>>::empty());
        assert(m.take(0) =~= Seq::<Seq<i64>>::empty());
    } else {
        lemma_parse_row_texts(m, k - 1);
        assert(ls.take(k).drop_last() =~= ls.take(k - 1));
        let row = m[k - 1];
        assert(row.len() > 0);
        lemma_row_text(row);
        lemma_parse_decimals(row, row.len() as int);
        assert(row.map_values(|x: i64| decimal(x)).take(row.len() as int) =~= row.map_values(
            |x: i64| decimal(x),
        ));
        assert(row.take(row.len() as int) =~= row);
        assert(m.take(k - 1).push(row) =~= m.take(k));
    }
}

/// Writing a matrix whose rows are not empty as text (entries in decimal,
/// separated by single spaces, each row ended by a line feed) and reading
/// the text gives the matrix back.
pub proof fn lemma_text_round_trip(m: Seq<Seq<i64>>)
    requires
        forall|r: int| 0 <= r < m.len() ==> (#[trigger] m[r]).len() > 0,
    ensures
        matrix_of_text(text_of(m)) == Some(m),
{
    let ls = m.map_values(|row: Seq<i64>| row_text(row));
    lemma_text_pieces(m);
    let raw = pieces(text_of(m), false);
    assert(raw.last() =~= Seq::<u8>::empty());
    assert forall|k: int| 0 <= k < m.len() implies #[trigger] lines(text_of(m))[k] == ls[k] by {
        assert(raw[k] == ls[k]);
        assert(m[k].len() > 0);
        lemma_row_text(m[k]);
        assert(is_digit(ls[k].last()));
    }
    assert(lines(text_of(m)) =~= ls);
    lemma_parse_row_texts(m, m.len() as int);
    assert(ls.take(m.len() as int) =~= ls);
    assert(m.take(m.len() as int) =~= m);
}

// ---------------------------------------------------------------------------
// Lines ended by line feeds
// ---------------------------------------------------------------------------

proof fn lemma_pieces_nonempty(s: Seq<u8>, by_whitespace: bool, i: int, start: int)
    ensures
        pieces_from(s, by_whitespace, i, start).len() >= 1,
    decreases s.len() - i,
{
    if i < s.len() {
        let l = separator_len(s, i, by_whitespace);
        if l > 0 {
            lemma_pieces_nonempty(s, by_whitespace, i + l, i + l);
        } else {
            lemma_pieces_nonempty(s, by_whitespace, i + 1, start);
        }
    }
}

/// A line that a line feed ends is the first line of the text, without a
/// carriage return just before the line feed; the lines after it are the lines
/// of the rest of the text, whatever the rest is (ended by a line feed or
/// not, empty or not).
pub proof fn lemma_lines_first_line(x: Seq<u8>, u: Seq<u8>)
    requires
        forall|k: int| 0 <= k < x.len() ==> x[k] != 10,
    ensures
        lines(x + seq![10u8] + u) == seq![strip_cr(x)] + lines(u),
{
    let s = x + seq![10u8] + u;
    assert(separator_free(x, false));
    assert(s[x.len() as int] == 10u8);
    lemma_split_first(x, 10u8, u, false);
    let p = pieces(u, false);
    lemma_pieces_nonempty(u, false, 0, 0);
    let raw = pieces(s, false);
    assert(raw == seq![x] + p);
    assert(raw.last() == p.last());
    let a = lines(s);
    let b = seq![strip_cr(x)] + lines(u);
    assert(a.len() == b.len());
    assert forall|k: int| 0 <= k < a.len() implies #[trigger] a[k] == b[k] by {
        if k > 0 {
            assert(raw[k] == p[k - 1]);
        }
    }
    assert(a =~= b);
}

/// A line ended by a carriage return and a line feed is the same line as
/// one ended by the line feed alone: without the carriage return.
pub proof fn lemma_lines_after_crlf(t: Seq<u8>, u: Seq<u8>)
    requires
        forall|k: int| 0 <= k < t.len() ==> t[k] != 10,
    ensures
        lines(t + seq![13u8, 10u8] + u) == seq![t] + lines(u),
{
    let x = t + seq![13u8];
    assert forall|k: int| 0 <= k < x.len() implies x[k] != 10 by {
        if k < t.len() {
            assert(x[k] == t[k]);
        }
    }
    lemma_lines_first_line(x, u);
    assert(x + seq![10u8] + u =~= t + seq![13u8, 10u8] + u);
    assert(x.drop_last() =~= t);
}

proof fn lemma_parse_rows_append(a: Seq<Seq<u8>>, b: Seq<Seq<u8>>)
    ensures
        parse_rows(a + b) == match (parse_rows(a), parse_rows(b)) {
            (Some(x), Some(y)) => Some(x + y),
            _ => None,
        },
    decreases b.len(),
{
    if b.len() == 0 {
        assert(a + b =~= a);
        if let Some(x) = parse_rows(a) {
            assert(x + Seq::<Seq<i64>>::empty() =~= x);
        }
    } else {
        lemma_parse_rows_append(a, b.drop_last());
        assert((a + b).drop_last() =~= a + b.drop_last());
        assert((a + b).last() == b.last());
        if let (Some(x), Some(y)) = (parse_rows(a), parse_rows(b.drop_last())) {
            if let Some(row) = parse_fields(fields(b.last())) {
                assert((x + y).push(row) =~= x + y.push(row));
            }
        }
    }
}

/// The first line of a text, ended by a line feed (and perhaps a carriage
/// return before it), gives the first row; the rest of the text gives the
/// rows after it. The text reads as a matrix exactly when both do.
pub proof fn lemma_matrix_first_line(x: Seq<u8>, u: Seq<u8>)
    requires
        forall|k: int| 0 <= k < x.len() ==> x[k] != 10,
    ensures
        matrix_of_text(x + seq![10u8] + u) == match (
            parse_fields(fields(strip_cr(x))),
            matrix_of_text(u),
        ) {
            (Some(row), Some(rest)) => Some(seq![row] + rest),
            _ => None,
        },
{
    lemma_lines_first_line(x, u);
    let first = seq![strip_cr(x)];
    lemma_parse_rows_append(first, lines(u));
    assert(first.drop_last() =~= Seq::<Seq<u8>>::empty());
    assert(first.last() == strip_cr(x));
    assert(parse_rows(Seq::<Seq<u8>>::empty()) == Some(Seq::<Seq<i64>>::empty()));
    if let Some(row) = parse_fields(fields(strip_cr(x))) {
        assert(seq![row] =~= Seq::<Seq<i64>>::empty().push(row));
        assert(parse_rows(first) == Some(seq![row]));
    } else {
        assert(parse_rows(first) is None);
    }
}

/// A text reads the same whether its lines end with a line feed or with a
/// carriage return and a line feed: for a line `t` that does not itself end
/// with a carriage return, `t` + CR LF + rest reads as `t` + LF + rest.
pub proof fn lemma_crlf_reads_as_lf(t: Seq<u8>, u: Seq<u8>)
    requires
        forall|k: int| 0 <= k < t.len() ==> t[k] != 10,
        t.len() == 0 || t.last() != 13,
    ensures
        matrix_of_text(t + seq![13u8, 10u8] + u) == matrix_of_text(t + seq![10u8] + u),
        lines(t + seq![13u8, 10u8] + u) == lines(t + seq![10u8] + u),
{
    lemma_lines_after_crlf(t, u);
    lemma_lines_first_line(t, u);
    assert(strip_cr(t) == t);
}

/// A text with no line feed is one line, kept whole (a carriage return at
/// its end included), unless it is empty, which has no lines.
pub proof fn lemma_lines_without_line_feed(x: Seq<u8>)
    requires
        forall|k: int| 0 <= k < x.len() ==> x[k] != 10,
    ensures
        x.len() > 0 ==> lines(x) == seq![x],
        x.len() == 0 ==> lines(x) == Seq::<Seq<u8>>::empty(),
{
    assert(separator_free(x, false));
    lemma_single_piece(x, false);
    assert(lines(x) =~= (if x.len() > 0 {
        seq![x]
    } else {
        Seq::<Seq<u8>>::empty()
    }));
}

} // verus!
