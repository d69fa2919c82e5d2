use robust_rs::seeds::{elemental_subset, start_order, substream_seed};

#[test]
fn substream_seed_is_the_splitmix_mix() {
    assert_eq!(substream_seed(0, 0), 0);
    assert_eq!(substream_seed(0x0175_5EED, 7), 12300810881086763702);
    assert_eq!(substream_seed(42, 1), 13679457532755275413);
}

#[test]
fn elemental_subsets_are_distinct_in_range_and_reproducible() {
    for attempt in 0..50u64 {
        let s = elemental_subset(0xFA57_5EED, attempt, 47, 2);
        assert_eq!(s.len(), 2);
        assert!(s.iter().all(|&i| i < 47));
        assert_ne!(s[0], s[1]);
        assert_eq!(s, elemental_subset(0xFA57_5EED, attempt, 47, 2));
    }
    let full = elemental_subset(3, 0, 6, 6);
    let mut sorted = full.clone();
    sorted.sort();
    assert_eq!(sorted, vec![0, 1, 2, 3, 4, 5]);
    assert!(elemental_subset(3, 0, 6, 0).is_empty());
}

#[test]
fn distinct_attempts_draw_distinct_subsets() {
    let draws: Vec<Vec<usize>> = (0..20u64).map(|a| elemental_subset(11, a, 1000, 5)).collect();
    let first = &draws[0];
    assert!(draws.iter().skip(1).any(|d| d != first));
}

#[test]
fn start_order_is_a_shuffled_permutation() {
    let order = start_order(0x11CD_5EED, 3, 30);
    let mut sorted = order.clone();
    sorted.sort();
    assert_eq!(sorted, (0..30).collect::<Vec<usize>>());
    assert_ne!(order, (0..30).collect::<Vec<usize>>());
    assert_eq!(order, start_order(0x11CD_5EED, 3, 30));
    assert!(start_order(1, 1, 0).is_empty());
}
