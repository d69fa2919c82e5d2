use robust_rs::pairs::{slope_pairs, walsh_pairs};

#[test]
fn walsh_pairs_include_the_diagonal() {
    assert_eq!(
        walsh_pairs(3),
        vec![(0, 0), (0, 1), (0, 2), (1, 1), (1, 2), (2, 2)]
    );
    assert!(walsh_pairs(0).is_empty());
    assert_eq!(walsh_pairs(20).len(), 20 * 21 / 2);
}

#[test]
fn slope_pairs_skip_the_diagonal() {
    assert_eq!(slope_pairs(3), vec![(0, 1), (0, 2), (1, 2)]);
    assert!(slope_pairs(1).is_empty());
    assert!(slope_pairs(0).is_empty());
    assert_eq!(slope_pairs(20).len(), 20 * 19 / 2);
}

#[test]
fn walsh_averages_of_three_points() {
    // Walsh averages of {1,2,3} (i ≤ j, self-pairs included):
    // {1, 1.5, 2, 2, 2.5, 3} ⇒ median 2.
    let data = [1.0_f64, 2.0, 3.0];
    let mut walsh: Vec<f64> = walsh_pairs(3)
        .into_iter()
        .map(|(i, j)| 0.5 * (data[i] + data[j]))
        .collect();
    walsh.sort_by(f64::total_cmp);
    assert_eq!(walsh, vec![1.0, 1.5, 2.0, 2.0, 2.5, 3.0]);
}
