use std::io::BufRead;

use lab4::text::parse_matrix;

#[test]
fn test_reading_matrix_from_file() {
    let reference: Vec<Vec<i64>> = vec![
        vec![4, 7, 9, 5],
        vec![3, 6, 9, 4],
        vec![0, 4, 26, 8],
        vec![9, 6, 3, 7],
    ];

    let read = parse_matrix(b"4 7 9 5\n3 6 9 4\n0 4 26 8\n9 6 3 7\n").unwrap();

    assert_eq!(read.len(), reference.len());
    for (refer, result) in reference.iter().zip(read) {
        for (i, j) in refer.iter().zip(result) {
            assert_eq!(*i, j);
        }
    }
}

#[test]
fn last_line_needs_no_line_feed() {
    assert_eq!(parse_matrix(b"1 2\n3 4"), Some(vec![vec![1, 2], vec![3, 4]]));
}

#[test]
fn carriage_returns_before_line_feeds_are_dropped() {
    assert_eq!(parse_matrix(b"1 2\r\n3 4\r\n"), Some(vec![vec![1, 2], vec![3, 4]]));
    // A carriage return that no line feed follows stays, and is a separator.
    assert_eq!(parse_matrix(b"1 2\r"), None);
}

#[test]
fn empty_text_has_no_rows() {
    assert_eq!(parse_matrix(b""), Some(Vec::<Vec<i64>>::new()));
}

#[test]
fn empty_lines_and_doubled_separators_are_refused() {
    assert_eq!(parse_matrix(b"\n"), None);
    assert_eq!(parse_matrix(b"1\n\n"), None);
    assert_eq!(parse_matrix(b"1  2"), None);
    assert_eq!(parse_matrix(b" 1"), None);
    assert_eq!(parse_matrix(b"1 "), None);
}

#[test]
fn any_whitespace_character_separates() {
    assert_eq!(parse_matrix(b"1\t2\x0b3\x0c4"), Some(vec![vec![1, 2, 3, 4]]));
    assert_eq!(parse_matrix("1\u{a0}2\u{3000}3\u{2028}4\u{85}5".as_bytes()), Some(vec![vec![1, 2, 3, 4, 5]]));
    assert_eq!(parse_matrix("1\u{2000}2\u{200a}3\u{1680}4\u{205f}5\u{202f}6".as_bytes()), Some(vec![vec![1, 2, 3, 4, 5, 6]]));
    // A non-breaking zero width space is no whitespace.
    assert_eq!(parse_matrix("1\u{200b}2".as_bytes()), None);
}

#[test]
fn numbers_as_from_str_reads_them() {
    assert_eq!(parse_matrix(b"+5 -0 007 -12"), Some(vec![vec![5, 0, 7, -12]]));
    assert_eq!(parse_matrix(b"9223372036854775807 -9223372036854775808"), Some(vec![vec![i64::MAX, i64::MIN]]));
    assert_eq!(parse_matrix(b"9223372036854775808"), None);
    assert_eq!(parse_matrix(b"-9223372036854775809"), None);
    assert_eq!(parse_matrix(b"99999999999999999999999"), None);
    assert_eq!(parse_matrix(b"-"), None);
    assert_eq!(parse_matrix(b"+"), None);
    assert_eq!(parse_matrix(b"+-1"), None);
    assert_eq!(parse_matrix(b"1a"), None);
    assert_eq!(parse_matrix(b"1 2\nx"), None);
}

#[test]
fn parsing_agrees_with_from_str() {
    for s in ["0", "-1", "+17", "12345678901234", "-", "", "1.0", "0x10", "18446744073709551616"] {
        let expected = s.parse::<i64>().ok().map(|v| vec![vec![v]]);
        let got = parse_matrix(s.as_bytes());
        if s.is_empty() {
            assert_eq!(got, Some(vec![]));
        } else {
            assert_eq!(got, expected);
        }
    }
}

/// Reads a matrix the way `BufRead::lines`, `str::split(char::is_whitespace)`
/// and `i64::from_str` do, stopping at the first failure.
fn read_with_std(text: &str) -> Option<Vec<Vec<i64>>> {
    let mut rows = Vec::new();
    for line in std::io::Cursor::new(text.as_bytes()).lines() {
        let line = line.ok()?;
        let mut row = Vec::new();
        for field in line.split(char::is_whitespace) {
            row.push(field.parse::<i64>().ok()?);
        }
        rows.push(row);
    }
    Some(rows)
}

#[test]
fn every_character_separates_as_std_splits() {
    let mut chars: Vec<char> = (0u32..0x3100).filter_map(char::from_u32).collect();
    chars.extend(['\u{feff}', '\u{fff9}', '\u{10ffff}', '\u{1f600}']);
    for c in chars {
        let text = format!("1{}2\n-3 4{}", c, c);
        assert_eq!(parse_matrix(text.as_bytes()), read_with_std(&text), "separator {:?}", c);
    }
}

#[test]
fn texts_read_as_std_reads_them() {
    let texts = [
        "",
        "\n",
        "\r\n",
        "1",
        "1\n",
        "1\r\n2\r\n",
        "1\r",
        "1\n\n2",
        "1 2 3\n4 5 6\n7 8 9",
        "1 2 3\n4 5 6\n7 8 9\n",
        "  ",
        "1\t\t2",
        "-0 +0 00",
        "- 1",
        "1e3",
        "\u{2003}5",
        "12\r\r\n",
    ];
    for text in texts {
        assert_eq!(parse_matrix(text.as_bytes()), read_with_std(text), "text {:?}", text);
    }
}
