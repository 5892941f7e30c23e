use klomang_mempool::admission::{
    check_capacity, check_fee_density, check_freed_space, min_fee_density, place_after_validation,
    resolve_spend_conflicts, screen_fees, AdmissionError, Placement, ValidationVerdict,
};
use klomang_mempool::pool::FeeFilter;

#[test]
fn density_rises_with_size() {
    assert_eq!(min_fee_density(999), 1);
    assert_eq!(min_fee_density(1000), 2);
    assert_eq!(min_fee_density(9999), 2);
    assert_eq!(min_fee_density(10000), 5);
    assert_eq!(check_fee_density(0, 0), Ok(()));
    assert_eq!(check_fee_density(1, 999), Ok(()));
    assert_eq!(
        check_fee_density(1, 1000),
        Err(AdmissionError::FeeDensityTooLow { fee_rate: 1, minimum: 2, size_bytes: 1000 })
    );
    assert_eq!(
        check_fee_density(4, 20000),
        Err(AdmissionError::FeeDensityTooLow { fee_rate: 4, minimum: 5, size_bytes: 20000 })
    );
}

#[test]
fn fee_screens_run_in_order() {
    let mut filter = FeeFilter::new(5, 150);
    assert_eq!(screen_fees(&mut filter, 1000, 100, true, 1, 0, 100, 0), Ok(10));
    assert_eq!(
        screen_fees(&mut filter, 300, 100, true, 1, 0, 100, 0),
        Err(AdmissionError::BelowMinimumFee { fee_rate: 3, threshold: 5 })
    );
    assert_eq!(
        screen_fees(&mut filter, 1000, 100, false, 1, 0, 100, 0),
        Err(AdmissionError::ResourceConstraints)
    );
    assert_eq!(
        screen_fees(&mut filter, 1000, 100, true, 0, 0, 100, 0),
        Err(AdmissionError::FeeDensityTooLow { fee_rate: 0, minimum: 1, size_bytes: 100 })
    );
    // the multiplied rate passes the density screen, the plain rate meets the filter
    assert_eq!(screen_fees(&mut filter, 5000, 1000, true, 2, 0, 100, 0), Ok(5));
    assert_eq!(filter.current_threshold(), 5);
}

#[test]
fn capacity_checks_rate_limit_first() {
    assert_eq!(check_capacity(false, 100, 100), Err(AdmissionError::RateLimited));
    assert_eq!(check_capacity(true, 100, 100), Err(AdmissionError::PoolFull { max_pool_size: 100 }));
    assert_eq!(check_capacity(true, 99, 100), Ok(()));
    assert_eq!(check_freed_space(200, 150), Err(AdmissionError::CannotFit { needed: 200, freed: 150 }));
    assert_eq!(check_freed_space(200, 200), Ok(()));
}

#[test]
fn conflicting_spends_are_settled_by_fee_then_hash() {
    let conflicts = vec![(vec![5u8], 10u64), (vec![3u8], 12u64)];
    assert_eq!(resolve_spend_conflicts(&[9], 10, false, &conflicts), Ok(false));
    assert_eq!(resolve_spend_conflicts(&[9], 13, true, &conflicts), Ok(true));
    assert_eq!(resolve_spend_conflicts(&[1], 12, true, &conflicts), Ok(true));
    assert_eq!(resolve_spend_conflicts(&[4], 12, true, &conflicts), Err(AdmissionError::OutrankedByConflict));
    assert_eq!(resolve_spend_conflicts(&[9], 1, true, &Vec::new()), Ok(true));
}

#[test]
fn validation_decides_the_placement() {
    assert!(matches!(place_after_validation(None), Ok(Placement::MainPool)));
    assert!(matches!(place_after_validation(Some(ValidationVerdict::Valid)), Ok(Placement::MainPool)));
    match place_after_validation(Some(ValidationVerdict::MissingInputs(vec![0, 2]))) {
        Ok(Placement::OrphanPool(m)) => assert_eq!(m, vec![0, 2]),
        _ => panic!("expected the orphan pool"),
    }
    assert_eq!(place_after_validation(Some(ValidationVerdict::DoubleSpent)).err(), Some(AdmissionError::DoubleSpent));
    assert_eq!(
        place_after_validation(Some(ValidationVerdict::InputNotFound(3))).err(),
        Some(AdmissionError::InputNotFound(3))
    );
    assert_eq!(place_after_validation(Some(ValidationVerdict::Failed)).err(), Some(AdmissionError::ValidationFailed));
}
