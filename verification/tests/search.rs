use robust_rs::search::{first_minimum, ResampleBudget, SubsetConcentration};

#[test]
fn budget_stops_after_enough_valid_fits() {
    let mut b = ResampleBudget::new(3);
    let mut seen = Vec::new();
    while let Some(a) = b.next_attempt() {
        seen.push(a);
        if a % 2 == 0 {
            b.record_valid();
        }
    }
    // draws 0, 2, 4 are valid: the search stops after draw 4
    assert_eq!(seen, vec![0, 1, 2, 3, 4]);
    assert_eq!(b.valid_count(), 3);
}

#[test]
fn budget_stops_at_the_attempt_limit() {
    let mut b = ResampleBudget::new(1);
    let mut n = 0;
    while let Some(_) = b.next_attempt() {
        n += 1;
    }
    assert_eq!(n, 50); // max(20·1, 50): never valid, so 50 draws
    let mut big = ResampleBudget::new(500);
    let mut m = 0;
    while big.next_attempt().is_some() {
        m += 1;
    }
    assert_eq!(m, 10_000);
    assert_eq!(big.attempt_count(), 10_000);
    let mut none = ResampleBudget::new(0);
    assert_eq!(none.next_attempt(), None);
}

#[test]
fn first_minimum_skips_failures_and_keeps_the_first_tie() {
    assert_eq!(first_minimum(&vec![None, Some(5), Some(3), Some(3), None]), Some(2));
    assert_eq!(first_minimum(&vec![None, None]), None);
    assert_eq!(first_minimum(&vec![]), None);
    assert_eq!(first_minimum(&vec![Some(-1)]), Some(0));
}

#[test]
fn concentration_converges_when_the_subset_repeats() {
    let mut c = SubsetConcentration::new(10);
    assert!(c.can_step());
    assert!(!c.settle(vec![1, 2, 3]));
    assert!(!c.settle(vec![1, 2, 4]));
    assert!(c.settle(vec![1, 2, 4]));
}

#[test]
fn concentration_allows_at_least_one_step() {
    let mut c = SubsetConcentration::new(0);
    assert!(c.can_step());
    assert!(!c.settle(vec![0]));
    assert!(!c.can_step());
}
