use lab4::matrix::{calculate_determinant, select_minor};
use lab4::protocol::{
    channel_forward, channel_leaf, first_column_subtasks, first_row_subtasks, is_square_matrix,
    shm_combine, shm_leaf,
};
use lab4::shm_word::{decode_shm_word, encode_shm_word};

fn m_282() -> Vec<Vec<i64>> {
    vec![
        vec![4, 7, 9, 5],
        vec![3, 6, 9, 4],
        vec![0, 4, 26, 8],
        vec![9, 6, 3, 7],
    ]
}

#[test]
fn test_read_write_shm() {
    let original_value: u64 = 0x123456789abcdef0;

    let bytes = encode_shm_word(original_value);
    let read_value = decode_shm_word(bytes);

    assert_eq!(original_value, read_value)
}

#[test]
fn shm_word_is_most_significant_byte_first() {
    assert_eq!(
        encode_shm_word(0x123456789abcdef0),
        [0x12, 0x34, 0x56, 0x78, 0x9a, 0xbc, 0xde, 0xf0]
    );
    assert_eq!(decode_shm_word([0, 0, 0, 0, 0, 0, 1, 2]), 0x102);
    assert_eq!(decode_shm_word([0xff; 8]), u64::MAX);
    assert_eq!(encode_shm_word(0), [0; 8]);
}

#[test]
fn shm_word_round_trips() {
    for v in [0u64, 1, 255, 256, u64::MAX, (-282i64) as u64, 1 << 63] {
        assert_eq!(decode_shm_word(encode_shm_word(v)), v);
    }
    let b = [9, 8, 7, 6, 5, 4, 3, 2];
    assert_eq!(encode_shm_word(decode_shm_word(b)), b);
}

#[test]
fn square_check() {
    assert!(is_square_matrix(&m_282()));
    assert!(!is_square_matrix(&vec![vec![1, 2]]));
    assert!(!is_square_matrix(&vec![vec![1], vec![2]]));
}

#[test]
fn column_subtasks_add_up_to_the_determinant() {
    let m = m_282();
    let tasks = first_column_subtasks(&m);
    assert_eq!(tasks.len(), 4);
    assert_eq!(tasks[2].minor, select_minor(&m, 2, 0));
    assert_eq!(tasks[1].coefficient, 3);
    assert!(!tasks[1].is_positive);
    let total: i64 = tasks
        .iter()
        .map(|t| calculate_determinant(&t.minor, t.coefficient, t.is_positive))
        .sum();
    assert_eq!(total, -282);
}

#[test]
fn row_subtasks_add_up_to_the_determinant() {
    let m = m_282();
    let tasks = first_row_subtasks(&m);
    assert_eq!(tasks.len(), 4);
    assert_eq!(tasks[3].minor, select_minor(&m, 0, 3));
    assert_eq!(tasks[3].coefficient, 5);
    assert!(!tasks[3].is_positive);
    let total: i64 = tasks
        .iter()
        .map(|t| calculate_determinant(&t.minor, t.coefficient, t.is_positive))
        .sum();
    assert_eq!(total, -282);
}

#[test]
fn channel_steps() {
    assert_eq!(channel_forward(6, 4, true), 24);
    assert_eq!(channel_forward(6, 4, false), -24);
    assert_eq!(channel_leaf(6, 4, true), 24);
    assert_eq!(channel_leaf(6, 4, false), -24);
    assert_eq!(channel_leaf(-6, -4, false), -24);
}

#[test]
fn shm_steps() {
    assert_eq!(shm_combine(10, 3, 4, true), 22);
    assert_eq!(shm_combine(10, 3, 4, false) as i64, -2);
    assert_eq!(shm_combine((-5i64) as u64, (-3i64) as u64, 2, true) as i64, -11);
    assert_eq!(shm_leaf(10, 3, 4, true), 22);
    assert_eq!(shm_leaf(10, 3, 4, false) as i64, -2);
}
