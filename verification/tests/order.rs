use robust_rs::order::{lowest_ranked, middle_keys, rank_order, retained_subset, sorted_keys, MiddleKeys};
use robust_rs::total_order::total_order_key;

fn key(x: f64) -> i64 {
    total_order_key(x.to_bits())
}

#[test]
fn rank_order_sorts_by_key_then_index() {
    assert_eq!(rank_order(&vec![3, 1, 2, 1]), vec![1, 3, 2, 0]);
    assert_eq!(rank_order(&vec![]), Vec::<usize>::new());
    assert_eq!(rank_order(&vec![7, 7, 7]), vec![0, 1, 2]);
}

#[test]
fn rank_order_matches_a_stable_sort_of_float_residuals() {
    let r = [0.5, -2.0, 0.0, -0.0, 3.5, -2.0, 1e-300, f64::INFINITY];
    let keys: Vec<i64> = r.iter().map(|&v| key(v)).collect();
    let mut want: Vec<usize> = (0..r.len()).collect();
    want.sort_by(|&a, &b| r[a].total_cmp(&r[b]));
    assert_eq!(rank_order(&keys), want);
}

#[test]
fn lowest_ranked_keeps_rank_order_and_caps_at_n() {
    let keys = vec![5, 1, 4, 1, 9];
    assert_eq!(lowest_ranked(&keys, 3), vec![1, 3, 2]);
    assert_eq!(lowest_ranked(&keys, 0), Vec::<usize>::new());
    assert_eq!(lowest_ranked(&keys, 10), vec![1, 3, 2, 0, 4]);
}

#[test]
fn retained_subset_lists_the_lowest_by_index() {
    let keys = vec![5, 1, 4, 1, 9];
    assert_eq!(retained_subset(&keys, 3), vec![1, 2, 3]);
    assert_eq!(retained_subset(&keys, 5), vec![0, 1, 2, 3, 4]);
    assert_eq!(retained_subset(&keys, 0), Vec::<usize>::new());
    // ties go to the lower index
    assert_eq!(retained_subset(&vec![2, 2, 2, 2], 2), vec![0, 1]);
}

#[test]
fn retained_keys_never_exceed_dropped_keys() {
    let keys: Vec<i64> = (0..40).map(|i| ((i * 7919) % 23) as i64 - 11).collect();
    let kept = retained_subset(&keys, 17);
    assert_eq!(kept.len(), 17);
    let max_kept = kept.iter().map(|&i| keys[i]).max().unwrap();
    for j in 0..keys.len() {
        if !kept.contains(&j) {
            assert!(keys[j] >= max_kept);
        }
    }
    assert!(kept.windows(2).all(|w| w[0] < w[1]));
}

#[test]
fn sorted_keys_sorts() {
    assert_eq!(sorted_keys(&vec![3, -1, 2, -1, 0]), vec![-1, -1, 0, 2, 3]);
    assert_eq!(sorted_keys(&vec![i64::MAX, i64::MIN]), vec![i64::MIN, i64::MAX]);
}

#[test]
fn middle_keys_for_odd_and_even_samples() {
    assert_eq!(middle_keys(&vec![9, 1, 5]), MiddleKeys::Single(5));
    assert_eq!(middle_keys(&vec![9, 1, 5, 3]), MiddleKeys::Pair(3, 5));
    assert_eq!(middle_keys(&vec![4]), MiddleKeys::Single(4));
    // Walsh averages of {1,2,3}: {1, 1.5, 2, 2, 2.5, 3}: middle pair (2, 2)
    let walsh = [1.0, 1.5, 2.0, 2.0, 2.5, 3.0, ];
    let keys: Vec<i64> = walsh.iter().rev().map(|&v| key(v)).collect();
    assert_eq!(middle_keys(&keys), MiddleKeys::Pair(key(2.0), key(2.0)));
}
