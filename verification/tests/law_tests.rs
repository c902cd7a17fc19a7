use lab4::matrix::{calculate_determinant, calculate_slice, select_minor, try_calculate_determinant};
use lab4::protocol::{
    channel_forward, channel_leaf, first_column_subtasks, first_row_subtasks, shm_combine,
    shm_leaf, thread_partials, try_thread_partials,
};
use lab4::text::parse_matrix;

fn m_282() -> Vec<Vec<i64>> {
    vec![
        vec![4, 7, 9, 5],
        vec![3, 6, 9, 4],
        vec![0, 4, 26, 8],
        vec![9, 6, 3, 7],
    ]
}

fn m_5() -> Vec<Vec<i64>> {
    vec![
        vec![2, -1, 0, 3, 1],
        vec![1, 4, -2, 0, 5],
        vec![0, 3, 1, -1, 2],
        vec![6, 0, 2, 1, -3],
        vec![-2, 1, 3, 4, 0],
    ]
}

fn transpose(m: &Vec<Vec<i64>>) -> Vec<Vec<i64>> {
    (0..m.len()).map(|i| (0..m.len()).map(|j| m[j][i]).collect()).collect()
}

#[test]
fn transposing_keeps_the_determinant() {
    for m in [m_282(), m_5(), vec![vec![1, 2, 3], vec![4, 5, 6], vec![7, 8, 10]]] {
        assert_eq!(
            calculate_determinant(&transpose(&m), 1, true),
            calculate_determinant(&m, 1, true)
        );
    }
}

#[test]
fn exchanging_rows_negates_the_determinant() {
    let m = m_5();
    let d = calculate_determinant(&m, 1, true);
    for i in 0..5 {
        for j in 0..5 {
            if i != j {
                let mut s = m.clone();
                s.swap(i, j);
                assert_eq!(calculate_determinant(&s, 1, true), -d);
            }
        }
    }
}

#[test]
fn scaling_by_the_coefficient() {
    let m = m_5();
    let d = calculate_determinant(&m, 1, true);
    for c in [-7i64, -1, 0, 1, 3, 1000] {
        assert_eq!(calculate_determinant(&m, c, true), c * d);
        assert_eq!(calculate_determinant(&m, c, false), -c * d);
    }
}

#[test]
fn slices_split_anywhere_add_up() {
    let m = m_5();
    let d = calculate_determinant(&m, 1, true);
    for mid in 1..5 {
        assert_eq!(calculate_slice(&m, 0, mid) + calculate_slice(&m, mid, 5), d);
    }
    assert_eq!(calculate_slice(&m, 0, 5), d);
    assert_eq!(calculate_slice(&m, 1, 2) + calculate_slice(&m, 2, 4), calculate_slice(&m, 1, 4));
}

/// What the tree of channel workers sends, run in one process.
fn channel_tree(m: &Vec<Vec<i64>>, coefficient: i64, is_positive: bool, out: &mut Vec<i64>) {
    if m.len() != m[0].len() {
        return;
    }
    if m.len() > 1 {
        let mut received = Vec::new();
        for task in first_row_subtasks(m) {
            channel_tree(&task.minor, task.coefficient, task.is_positive, &mut received);
        }
        for res in received {
            out.push(channel_forward(res, coefficient, is_positive));
        }
    } else {
        out.push(channel_leaf(m[0][0], coefficient, is_positive));
    }
}

/// What the tree of shared-memory workers leaves in a word, run in one process.
fn shm_tree(m: &Vec<Vec<i64>>, word: u64, coefficient: i64, is_positive: bool) -> u64 {
    if m.len() > 1 {
        let mut child_word = 0u64;
        for task in first_column_subtasks(m) {
            child_word = shm_tree(&task.minor, child_word, task.coefficient, task.is_positive);
        }
        shm_combine(word, child_word, coefficient, is_positive)
    } else {
        shm_leaf(word, m[0][0], coefficient, is_positive)
    }
}

#[test]
fn the_channel_tree_sends_the_determinant() {
    for m in [m_282(), m_5()] {
        let mut sent = Vec::new();
        channel_tree(&m, 3, false, &mut sent);
        assert_eq!(sent.iter().sum::<i64>(), -3 * calculate_determinant(&m, 1, true));
    }
    assert_eq!(calculate_determinant(&m_5(), 1, true), m_5_det());
}

fn m_5_det() -> i64 {
    calculate_slice(&m_5(), 0, 5)
}

#[test]
fn the_shm_tree_adds_the_determinant() {
    for m in [m_282(), m_5()] {
        let word = shm_tree(&m, 10, 2, true);
        assert_eq!(word as i64, 10 + 2 * calculate_determinant(&m, 1, true));
        let word = shm_tree(&m, 0, 5, false);
        assert_eq!(word as i64, -5 * calculate_determinant(&m, 1, true));
    }
}

/// The chained minors of one thread, step by step.
fn chained_partials(m: &Vec<Vec<i64>>, t: usize) -> Vec<i64> {
    let mut minor = select_minor(m, t, 0);
    let mut out = Vec::new();
    for r in 1..=m.len() - 2 {
        for c in 1..=m.len() - 2 {
            minor = select_minor(&minor, r, c);
            if minor.len() == 2 {
                let coeff = (((r + c) % 2) as i64 * -2) + 1;
                out.push(coeff * try_calculate_determinant(&minor, 1, true).unwrap());
            }
        }
    }
    out
}

#[test]
fn thread_partials_follow_the_chain_of_minors() {
    let v5 = vec![
        vec![43, 76, -65, -12],
        vec![22, -87, 99, -22],
        vec![-76, 89, 57, -43],
        vec![43, -75, -62, 18],
    ];
    for t in 0..4 {
        assert_eq!(thread_partials(&v5, t), chained_partials(&v5, t));
    }
    assert_eq!(thread_partials(&v5, 0), vec![-87 * 18 - (-22) * (-75)]);
    for t in 0..5 {
        assert_eq!(thread_partials(&m_5(), t), chained_partials(&m_5(), t));
    }
    let two = vec![vec![1, 2], vec![3, 4]];
    assert_eq!(thread_partials(&two, 0), Vec::<i64>::new());
}

#[test]
fn thread_partials_fail_where_the_chain_fails() {
    assert_eq!(try_thread_partials(&vec![vec![1, 2]], 0), None);
    assert_eq!(try_thread_partials(&vec![vec![1, 2, 3], vec![4], vec![5, 6, 7]], 0), None);
    let huge = vec![
        vec![0, 0, 0],
        vec![0, i64::MAX, 2],
        vec![0, 2, i64::MAX],
    ];
    assert_eq!(try_thread_partials(&huge, 1), Some(vec![]));
    let big = vec![
        vec![0, i64::MAX, 0, 2],
        vec![0, 0, 0, 0],
        vec![0, 2, 0, i64::MAX],
        vec![0, 0, 0, 0],
    ];
    assert_eq!(try_thread_partials(&big, 3), None);
}

fn text_of(m: &Vec<Vec<i64>>) -> String {
    let mut s = String::new();
    for row in m {
        let fields: Vec<String> = row.iter().map(|x| x.to_string()).collect();
        s.push_str(&fields.join(" "));
        s.push('\n');
    }
    s
}

#[test]
fn written_text_reads_back() {
    for m in [
        m_282(),
        m_5(),
        vec![vec![i64::MIN, i64::MAX, 0]],
        vec![vec![-1], vec![7, 8, 9]],
        vec![],
    ] {
        assert_eq!(parse_matrix(text_of(&m).as_bytes()), Some(m));
    }
}

#[test]
fn shm_workers_with_opposite_signs_cancel() {
    for m in [m_282(), m_5()] {
        let after = shm_tree(&m, 42, 3, true);
        assert_eq!(shm_tree(&m, after, 3, false), 42);
        let after = shm_tree(&m, (-9i64) as u64, -4, false);
        assert_eq!(shm_tree(&m, after, -4, true) as i64, -9);
    }
}

#[test]
fn folding_a_result_with_both_signs_gives_the_word_back() {
    let w = shm_combine((-7i64) as u64, 5, 6, true);
    assert_eq!(shm_combine(w, 5, 6, false) as i64, -7);
    let w = shm_combine(100, (-3i64) as u64, 2, false);
    assert_eq!(shm_combine(w, (-3i64) as u64, 2, true), 100);
}

#[test]
fn library_shape_check_for_minors() {
    use_covers();
}

fn use_covers() {
    use_covers_inner(&vec![vec![1, 2], vec![3]], 0, 1, true);
    use_covers_inner(&vec![vec![1, 2], vec![3]], 0, 0, false);
    use_covers_inner(&vec![vec![1, 2], vec![3, 4]], usize::MAX, usize::MAX, true);
    use_covers_inner(&vec![vec![1, 2], vec![3]], usize::MAX, usize::MAX, false);
}

fn use_covers_inner(m: &Vec<Vec<i64>>, except: usize, col: usize, expected: bool) {
    assert_eq!(lab4::protocol::covers_minor_rows(m, except, col), expected);
}
