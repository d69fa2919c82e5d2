use robust_rs::design::{
    check_least_squares, check_location_scatter, check_paired, check_resampling, check_scatter,
    check_trimmed_regression, lts_coverage, max_breakdown_coverage, mcd_coverage,
    require_observations, trimmed_breakdown, DesignError,
};

#[test]
fn empty_samples_are_refused() {
    assert_eq!(
        require_observations(0, 1),
        Err(DesignError::InsufficientData { needed: 1, got: 0 })
    );
    assert_eq!(require_observations(3, 1), Ok(()));
}

#[test]
fn paired_samples_need_equal_lengths_then_two_points() {
    assert_eq!(
        check_paired(3, 4),
        Err(DesignError::DimensionMismatch { expected: 3, got: 4 })
    );
    assert_eq!(
        check_paired(1, 1),
        Err(DesignError::InsufficientData { needed: 2, got: 1 })
    );
    assert_eq!(check_paired(2, 2), Ok(()));
}

#[test]
fn least_squares_checks_in_order() {
    assert_eq!(
        check_least_squares(5, 2, 4, 3),
        Err(DesignError::DimensionMismatch { expected: 5, got: 4 })
    );
    assert_eq!(
        check_least_squares(5, 2, 5, 3),
        Err(DesignError::DimensionMismatch { expected: 5, got: 3 })
    );
    assert_eq!(check_least_squares(5, 0, 5, 5), Err(DesignError::SingularDesign));
    assert_eq!(
        check_least_squares(1, 2, 1, 1),
        Err(DesignError::InsufficientData { needed: 2, got: 1 })
    );
    assert_eq!(check_least_squares(5, 2, 5, 5), Ok(()));
}

#[test]
fn resampling_and_trimmed_designs_order_their_checks() {
    // the resampler checks the response first, LTS checks p first
    assert_eq!(
        check_resampling(5, 0, 4),
        Err(DesignError::DimensionMismatch { expected: 5, got: 4 })
    );
    assert_eq!(check_trimmed_regression(5, 0, 4), Err(DesignError::SingularDesign));
    assert_eq!(
        check_trimmed_regression(1, 2, 1),
        Err(DesignError::InsufficientData { needed: 2, got: 1 })
    );
    assert_eq!(check_resampling(47, 2, 47), Ok(()));
    assert_eq!(check_trimmed_regression(47, 2, 47), Ok(()));
}

#[test]
fn scatter_designs_need_p_plus_extra_rows() {
    assert_eq!(check_scatter(10, 0, 1), Err(DesignError::SingularDesign));
    assert_eq!(
        check_scatter(3, 3, 1),
        Err(DesignError::InsufficientData { needed: 4, got: 3 })
    );
    assert_eq!(
        check_scatter(4, 3, 2),
        Err(DesignError::InsufficientData { needed: 5, got: 4 })
    );
    assert_eq!(check_scatter(21, 3, 2), Ok(()));
}

#[test]
fn location_and_scatter_must_match_the_data() {
    assert_eq!(
        check_location_scatter(2, 3, 2, 2),
        Err(DesignError::DimensionMismatch { expected: 2, got: 3 })
    );
    assert_eq!(
        check_location_scatter(2, 2, 2, 3),
        Err(DesignError::DimensionMismatch { expected: 2, got: 2 })
    );
    assert_eq!(check_location_scatter(2, 2, 2, 2), Ok(()));
}

#[test]
fn lts_breakdown_matches_coverage_on_47_stars() {
    // starsCYG with an intercept: n = 47, p = 2, h = 25
    let h = lts_coverage(47, 2, None);
    assert_eq!(h, 25);
    let (num, den) = trimmed_breakdown(47, h);
    assert_eq!((num, den), (23, 47));
    assert!(num as f64 / den as f64 > 0.45);
}

#[test]
fn higher_coverage_lowers_breakdown() {
    let max_bp = lts_coverage(47, 2, None);
    let higher = lts_coverage(47, 2, Some((0.9_f64 * 47.0).floor() as usize));
    assert_eq!(higher, 42);
    assert!(higher > max_bp);
    assert!(trimmed_breakdown(47, higher).0 < trimmed_breakdown(47, max_bp).0);
}

#[test]
fn coverages_are_clamped() {
    assert_eq!(lts_coverage(10, 3, Some(1)), 3);
    assert_eq!(lts_coverage(10, 3, Some(50)), 10);
    assert_eq!(mcd_coverage(21, 3, None), 12);
    assert_eq!(mcd_coverage(21, 3, Some(2)), 4);
    assert_eq!(mcd_coverage(21, 3, Some(21)), 21);
    assert_eq!(max_breakdown_coverage(47, 2), 25);
    assert_eq!(max_breakdown_coverage(usize::MAX, usize::MAX), usize::MAX);
}
