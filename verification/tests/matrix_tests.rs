use lab4::matrix::{
    calculate_determinant, calculate_slice, is_expandable, select_minor, try_calculate_determinant,
    try_calculate_slice,
};

fn m_282() -> Vec<Vec<i64>> {
    vec![
        vec![4, 7, 9, 5],
        vec![3, 6, 9, 4],
        vec![0, 4, 26, 8],
        vec![9, 6, 3, 7],
    ]
}

fn test_data() -> Vec<Vec<Vec<i64>>> {
    vec![
        m_282(),
        vec![vec![1, 2, 3], vec![4, 5, 6], vec![7, 8, 9]],
        vec![
            vec![1, 2, 3, 4],
            vec![5, 6, 7, 8],
            vec![9, 10, 11, 12],
            vec![13, 14, 15, 16],
        ],
        vec![vec![2, 4], vec![1, 2]],
    ]
}

#[test]
fn test_slice_calculation() {
    let test_data = test_data();

    for matrix in test_data {
        let first = calculate_slice(&matrix, 0, matrix.len() / 2);
        let second = calculate_slice(&matrix, matrix.len() / 2, matrix.len());
        let whole = calculate_determinant(&matrix, 1, true);

        assert_eq!(first + second, whole);
    }
}

#[test]
fn test_minor() {
    let v1 = vec![vec![1, 2, 3], vec![4, 5, 6], vec![7, 8, 9]];

    let sv1 = select_minor(&v1, 0, 0);
    let sv2 = select_minor(&v1, 0, 1);
    let sv3 = select_minor(&v1, 1, 0);
    let sv4 = select_minor(&v1, 1, 1);

    assert!(sv1.eq(&vec![vec![5, 6], vec![8, 9]]),);
    assert!(sv2.eq(&vec![vec![4, 6], vec![7, 9]]),);
    assert!(sv3.eq(&vec![vec![2, 3], vec![8, 9]]),);
    assert!(sv4.eq(&vec![vec![1, 3], vec![7, 9]]),);
}

#[test]
fn minor_beyond_the_matrix_removes_nothing() {
    let v = vec![vec![1, 2], vec![3, 4]];
    assert_eq!(select_minor(&v, 5, 7), v);
    assert_eq!(select_minor(&v, 5, 0), vec![vec![2], vec![4]]);
    assert_eq!(select_minor(&v, 1, 9), vec![vec![1, 2]]);
}

#[test]
fn minor_cuts_rows_to_the_width_of_row_zero() {
    let v = vec![vec![1, 2], vec![3, 4, 5], vec![6, 7, 8, 9]];
    assert_eq!(select_minor(&v, 0, 0), vec![vec![4], vec![7]]);
    assert_eq!(select_minor(&v, 1, 1), vec![vec![1], vec![6]]);
}

#[test]
fn minor_of_nothing_is_nothing() {
    let v: Vec<Vec<i64>> = vec![];
    assert_eq!(select_minor(&v, 0, 0), Vec::<Vec<i64>>::new());
}

#[test]
fn determinant_of_the_sample_matrix() {
    assert_eq!(calculate_determinant(&m_282(), 1, true), -282);
}

#[test]
fn determinant_is_scaled_and_signed_by_the_coefficient() {
    assert_eq!(calculate_determinant(&m_282(), 2, true), -564);
    assert_eq!(calculate_determinant(&m_282(), 2, false), 564);
    assert_eq!(calculate_determinant(&m_282(), -3, false), -846);
    assert_eq!(calculate_determinant(&vec![vec![5]], 3, false), -15);
    assert_eq!(calculate_determinant(&vec![vec![5, 100]], 3, true), 15);
}

#[test]
fn determinant_of_small_matrices() {
    assert_eq!(calculate_determinant(&vec![vec![1, 2], vec![3, 4]], 1, true), -2);
    assert_eq!(
        calculate_determinant(&vec![vec![2, 0, 1], vec![1, 3, 2], vec![1, 1, 2]], 1, true),
        6
    );
    assert_eq!(
        calculate_determinant(&vec![vec![1, 2, 3], vec![4, 5, 6], vec![7, 8, 10]], 1, true),
        -3
    );
}

#[test]
fn determinant_of_a_wide_matrix_uses_its_leftmost_square() {
    // Rows longer than there are rows: the columns beyond are never reached.
    let wide = vec![vec![1, 2, 99], vec![3, 4, 99]];
    assert_eq!(calculate_determinant(&wide, 1, true), -2);
}

#[test]
fn checked_determinant_refuses_unexpandable_shapes() {
    let empty: Vec<Vec<i64>> = vec![];
    assert_eq!(try_calculate_determinant(&empty, 1, true), None);
    let tall = vec![vec![1], vec![2]];
    assert_eq!(try_calculate_determinant(&tall, 1, true), None);
    let ragged = vec![vec![1, 2], vec![3]];
    assert_eq!(try_calculate_determinant(&ragged, 1, true), None);
    let empty_row = vec![Vec::<i64>::new()];
    assert_eq!(try_calculate_determinant(&empty_row, 1, true), None);
    assert!(!is_expandable(&ragged));
    assert!(is_expandable(&m_282()));
}

#[test]
fn checked_determinant_refuses_overflow() {
    assert_eq!(try_calculate_determinant(&vec![vec![i64::MAX]], 2, true), None);
    assert_eq!(try_calculate_determinant(&vec![vec![1]], i64::MIN, false), None);
    assert_eq!(try_calculate_determinant(&vec![vec![1]], i64::MIN, true), Some(i64::MIN));
    let big = vec![vec![i64::MAX, 1], vec![1, i64::MAX]];
    assert_eq!(try_calculate_determinant(&big, 1, true), None);
    let sums_over = vec![vec![i64::MAX, -1], vec![1, 1]];
    // i64::MAX * 1 then - (1 * -1): the partial sum passes i64::MAX.
    assert_eq!(try_calculate_determinant(&sums_over, 1, true), None);
}

#[test]
fn checked_determinant_agrees_where_it_succeeds() {
    assert_eq!(try_calculate_determinant(&m_282(), 1, true), Some(-282));
    assert_eq!(try_calculate_determinant(&vec![vec![7]], 2, false), Some(-14));
}

#[test]
fn slices_of_the_sample_matrix() {
    let m = m_282();
    assert_eq!(calculate_slice(&m, 0, 4), -282);
    let parts = calculate_slice(&m, 0, 1)
        + calculate_slice(&m, 1, 2)
        + calculate_slice(&m, 2, 3)
        + calculate_slice(&m, 3, 4);
    assert_eq!(parts, -282);
    // The term of column 0: 4 * det of the minor without row 0 and column 0.
    assert_eq!(calculate_slice(&m, 0, 1), 4 * calculate_determinant(&select_minor(&m, 0, 0), 1, true));
    assert_eq!(calculate_slice(&m, 1, 2), -7 * calculate_determinant(&select_minor(&m, 0, 1), 1, true));
}

#[test]
fn checked_slice_refuses_what_would_fail() {
    let m = m_282();
    assert_eq!(try_calculate_slice(&m, 2, 2), None);
    assert_eq!(try_calculate_slice(&m, 3, 1), None);
    assert_eq!(try_calculate_slice(&m, 0, 5), None);
    assert_eq!(try_calculate_slice(&vec![vec![1, 2]], 0, 1), None);
    assert_eq!(try_calculate_slice(&vec![vec![1, 2], vec![3]], 0, 1), None);
    assert_eq!(try_calculate_slice(&vec![vec![i64::MAX, -2], vec![2, 1]], 0, 2), None);
    assert_eq!(try_calculate_slice(&m, 0, 4), Some(-282));
}

#[test]
fn slice_through_the_last_column_reads_one_entry_less() {
    // Row 1 lacks the last column, which the minor of the last column drops.
    let m = vec![vec![2, 3], vec![5]];
    assert_eq!(calculate_slice(&m, 1, 2), -15);
    assert_eq!(try_calculate_slice(&m, 0, 2), None);
    assert_eq!(select_minor(&m, 0, 1), vec![vec![5]]);
}
