use snapcall::{estimate_equity, EquityEstimateMode};

#[test]
fn exact_river_deterministic() {
    // Full board, exact hands: only 1 combination, deterministic result
    let r1 = estimate_equity("2h5h9cTdJs", "AhKh", &vec!["QsQc".to_string()], 100).unwrap();
    let r2 = estimate_equity("2h5h9cTdJs", "AhKh", &vec!["QsQc".to_string()], 100).unwrap();
    assert_eq!(r1.mode, EquityEstimateMode::ExactEnumeration);
    assert_eq!(r1.equities, r2.equities);
    assert_eq!(r1.samples, 1);
}

#[test]
fn exact_turn() {
    // Turn + exact hands: C(44, 1) = 44 combos, well under any reasonable iteration count
    let result = estimate_equity("2h5h9cTd", "AhKh", &vec!["QsQc".to_string()], 10_000).unwrap();
    assert_eq!(result.mode, EquityEstimateMode::ExactEnumeration);
    assert_eq!(result.samples, 44);
}

#[test]
fn exact_vs_mc_consistency() {
    // Same scenario: exact enumeration vs forced MC should produce similar results
    let exact = estimate_equity("2h5h9cTd", "AhKh", &vec!["QsQc".to_string()], 10_000).unwrap();
    assert_eq!(exact.mode, EquityEstimateMode::ExactEnumeration);

    let mc = estimate_equity("2h5h9cTd", "AhKh", &vec!["QsQc".to_string()], 1).unwrap();
    assert_eq!(mc.mode, EquityEstimateMode::MonteCarlo);

    assert_eq!(exact.equities.len(), mc.equities.len());
}

#[test]
fn falls_back_to_mc() {
    // Preflop with unknown villain: far more states than 10k
    let result = estimate_equity("", "AhAd", &vec!["".to_string()], 10_000).unwrap();
    assert_eq!(result.mode, EquityEstimateMode::MonteCarlo);
}
