use pdf2md::detect::{best_class, nms, reshape_15x_n, select_detections};
use pdf2md::sort::stable_sort_by_key;

fn table(n: usize, pairs: &[(usize, usize)]) -> Vec<Vec<bool>> {
    let mut t = vec![vec![false; n]; n];
    for &(a, b) in pairs {
        t[a][b] = true;
    }
    t
}

#[test]
fn reshape_transposes_channel_major_output() {
    let raw: Vec<u32> = (0..31).collect();
    let rows = reshape_15x_n(&raw);
    assert_eq!(rows.len(), 2);
    for i in 0..2 {
        for c in 0..15 {
            assert_eq!(rows[i][c], (c * 2 + i) as u32);
        }
    }
    let none: Vec<u32> = (0..14).collect();
    assert!(reshape_15x_n(&none).is_empty());
}

#[test]
fn best_class_takes_the_last_maximum() {
    assert_eq!(best_class(&[3, 9, 1, 9, 2]), 3);
    assert_eq!(best_class(&[5]), 0);
    assert_eq!(best_class(&[]), 0);
    assert_eq!(best_class(&[1, 2, 3]), 2);
}

#[test]
fn stable_sort_keeps_ties_in_input_order() {
    let keys = [5u64, 1, 5, 0, 1];
    assert_eq!(stable_sort_by_key(&[0, 1, 2, 3, 4], &keys), vec![3, 1, 4, 0, 2]);
    assert_eq!(stable_sort_by_key(&[4, 2, 0], &keys), vec![4, 2, 0]);
    assert!(stable_sort_by_key(&[], &keys).is_empty());
}

#[test]
fn nms_keeps_best_and_drops_what_it_suppresses() {
    // Detection 1 scores highest and suppresses 0. A suppressed detection
    // suppresses nothing: 2 survives although 0 would suppress it.
    let scores = [10u32, 30, 20];
    let sup = table(3, &[(1, 0), (0, 2)]);
    assert_eq!(nms(&[0, 1, 2], &scores, &sup), vec![1, 2]);
    assert_eq!(nms(&[0, 2], &scores, &sup), vec![2, 0]);
    assert!(nms(&[], &scores, &sup).is_empty());
}

#[test]
fn nms_breaks_score_ties_by_candidate_order() {
    let scores = [7u32, 7];
    let sup = table(2, &[(0, 1), (1, 0)]);
    assert_eq!(nms(&[0, 1], &scores, &sup), vec![0]);
    assert_eq!(nms(&[1, 0], &scores, &sup), vec![1]);
}

#[test]
fn selection_runs_per_class_then_orders_by_score() {
    // Detections 0 and 1 (class 3) overlap; 2 (class 0) overlaps 1 too but
    // belongs to another class.
    let classes = [3, 3, 0, 3];
    let scores = [50u32, 60, 55, 10];
    let sup = table(4, &[(1, 0), (0, 1), (1, 2), (2, 1)]);
    assert_eq!(select_detections(&classes, &scores, &sup), vec![1, 2, 3]);
    assert!(select_detections(&[], &[], &Vec::new()).is_empty());
}

#[test]
fn dropped_candidates_have_a_stronger_suppressor() {
    // 2 is dropped by 0, which scores higher; 3 is dropped by 1 of equal
    // score that comes first; nothing is kept twice.
    let scores = [40u32, 30, 20, 30];
    let sup = table(4, &[(0, 2), (1, 3), (3, 1)]);
    let kept = nms(&[0, 1, 2, 3], &scores, &sup);
    assert_eq!(kept, vec![0, 1]);
    let classes = [1, 1, 1, 1];
    let selected = select_detections(&classes, &scores, &sup);
    assert_eq!(selected, vec![0, 1]);
}
