use snapcall::{estimate_equity, EquityEstimateMode, EQUITY_SCALE};

fn pct(e: u64) -> f64 {
    (e as f64) * 100.0 / (EQUITY_SCALE as f64)
}

fn pct_sum(eq: &[u64]) -> f64 {
    eq.iter().map(|&e| pct(e)).sum()
}

#[test]
fn estimate_equity_no_villains() {
    let villains: Vec<String> = vec![];
    let result = estimate_equity("", "AhKd", &villains, 100);
    assert!(result.is_err());
}

#[test]
fn tests_equity_no_villains() {
    let villains: Vec<String> = vec![];
    let result = estimate_equity("", "AhKd", &villains, 100);
    assert!(result.is_err());
}

#[test]
fn estimate_equity_hero_range_rejected() {
    let result = estimate_equity("", "TT+", &vec!["AhKd".to_string()], 100);
    assert!(result.is_err());
}

#[test]
fn tests_equity_hero_range_rejected() {
    let result = estimate_equity("", "TT+", &vec!["AhKd".to_string()], 100);
    assert!(result.is_err());
}

#[test]
fn estimate_equity_hero_unknown_rejected() {
    let result = estimate_equity("", "", &vec!["AhKd".to_string()], 100);
    assert!(result.is_err());
}

#[test]
fn tests_equity_hero_unknown_rejected() {
    let result = estimate_equity("", "", &vec!["AhKd".to_string()], 100);
    assert!(result.is_err());
}

#[test]
fn estimate_equity_hero_conflicts_with_board() {
    let result = estimate_equity("AhKdQc", "AhJs", &vec!["2c3c".to_string()], 100);
    assert!(result.is_err());
}

#[test]
fn tests_equity_hero_conflicts_with_board() {
    let result = estimate_equity("AhKdQc", "AhJs", &vec!["2c3c".to_string()], 100);
    assert!(result.is_err());
}

#[test]
fn estimate_equity_duplicate_cards_between_players() {
    let result = estimate_equity("", "AhKd", &vec!["AhQs".to_string()], 100);
    assert!(result.is_err());
}

#[test]
fn tests_equity_duplicate_cards_between_players() {
    let result = estimate_equity("", "AhKd", &vec!["AhQs".to_string()], 100);
    assert!(result.is_err());
}

#[test]
fn estimate_equity_villain_card_conflicts_with_board() {
    let result = estimate_equity("AhKdQc", "2s3s", &vec!["Ah5d".to_string()], 100);
    assert!(result.is_err());
}

#[test]
fn tests_equity_villain_card_conflicts_with_board() {
    let result = estimate_equity("AhKdQc", "2s3s", &vec!["Ah5d".to_string()], 100);
    assert!(result.is_err());
}

#[test]
fn estimate_equity_aa_vs_kk_preflop() {
    let result = estimate_equity("", "AhAd", &vec!["KhKd".to_string()], 10_000).unwrap();
    assert_eq!(result.equities.len(), 2);
    assert!(result.samples > 0);
    assert!(pct(result.equities[0]) > 70.0, "AA should dominate KK");
    assert!(pct(result.equities[0]) < 95.0);
}

#[test]
fn tests_equity_aa_vs_kk_preflop() {
    let result = estimate_equity("", "AhAd", &vec!["KhKd".to_string()], 10_000).unwrap();
    assert_eq!(result.equities.len(), 2);
    assert!(result.samples > 0);
    assert!(pct(result.equities[0]) > 70.0, "AA should dominate KK");
    assert!(pct(result.equities[0]) < 95.0);
}

#[test]
fn estimate_equity_sum_to_100() {
    let result = estimate_equity("", "AhKd", &vec!["QsQc".to_string()], 5_000).unwrap();
    let sum = pct_sum(&result.equities);
    assert!((sum - 100.0).abs() < 0.01, "equities should sum to 100, got {sum}");
}

#[test]
fn tests_equity_sum_to_100() {
    let result = estimate_equity("", "AhKd", &vec!["QsQc".to_string()], 5_000).unwrap();
    let sum = pct_sum(&result.equities);
    assert!((sum - 100.0).abs() < 0.01, "equities should sum to 100, got {sum}");
}

#[test]
fn estimate_equity_with_flop() {
    let result = estimate_equity("2h5h9c", "AhKh", &vec!["QsQc".to_string()], 5_000).unwrap();
    assert_eq!(result.equities.len(), 2);
    assert!(result.samples > 0);
}

#[test]
fn tests_equity_with_flop() {
    let result = estimate_equity("2h5h9c", "AhKh", &vec!["QsQc".to_string()], 5_000).unwrap();
    assert_eq!(result.equities.len(), 2);
    assert!(result.samples > 0);
}

#[test]
fn estimate_equity_with_river() {
    let r1 = estimate_equity("2h5h9cTdJs", "AhKh", &vec!["QsQc".to_string()], 100).unwrap();
    let r2 = estimate_equity("2h5h9cTdJs", "AhKh", &vec!["QsQc".to_string()], 100).unwrap();
    assert_eq!(r1.equities, r2.equities, "river results should be deterministic");
}

#[test]
fn tests_equity_with_river() {
    let r1 = estimate_equity("2h5h9cTdJs", "AhKh", &vec!["QsQc".to_string()], 100).unwrap();
    let r2 = estimate_equity("2h5h9cTdJs", "AhKh", &vec!["QsQc".to_string()], 100).unwrap();
    assert_eq!(r1.equities, r2.equities, "river results should be deterministic");
}

#[test]
fn estimate_equity_hero_partial() {
    let result = estimate_equity("", "Ah", &vec!["KhKd".to_string()], 5_000).unwrap();
    assert_eq!(result.equities.len(), 2);
    assert!(result.samples > 0);
}

#[test]
fn tests_equity_hero_partial() {
    let result = estimate_equity("", "Ah", &vec!["KhKd".to_string()], 5_000).unwrap();
    assert_eq!(result.equities.len(), 2);
    assert!(result.samples > 0);
}

#[test]
fn estimate_equity_villain_unknown() {
    let result = estimate_equity("", "AhAd", &vec!["".to_string()], 5_000).unwrap();
    assert_eq!(result.equities.len(), 2);
    assert!(pct(result.equities[0]) > 70.0, "AA should dominate random hand");
}

#[test]
fn tests_equity_villain_unknown() {
    let result = estimate_equity("", "AhAd", &vec!["".to_string()], 5_000).unwrap();
    assert_eq!(result.equities.len(), 2);
    assert!(pct(result.equities[0]) > 70.0, "AA should dominate random hand");
}

#[test]
fn estimate_equity_villain_range() {
    let result = estimate_equity("", "AhAd", &vec!["TT+".to_string()], 5_000).unwrap();
    assert_eq!(result.equities.len(), 2);
    assert!(pct(result.equities[0]) > 60.0, "AA should beat TT+");
}

#[test]
fn tests_equity_villain_range() {
    let result = estimate_equity("", "AhAd", &vec!["TT+".to_string()], 5_000).unwrap();
    assert_eq!(result.equities.len(), 2);
    assert!(pct(result.equities[0]) > 60.0, "AA should beat TT+");
}

#[test]
fn estimate_equity_multiple_villains() {
    let result =
        estimate_equity("", "AhAd", &vec!["KhKd".to_string(), "QsQc".to_string()], 5_000).unwrap();
    assert_eq!(result.equities.len(), 3);
    let sum = pct_sum(&result.equities);
    assert!((sum - 100.0).abs() < 0.01);
    assert!(pct(result.equities[0]) > 50.0, "AA should lead vs KK and QQ");
}

#[test]
fn tests_equity_multiple_villains() {
    let result =
        estimate_equity("", "AhAd", &vec!["KhKd".to_string(), "QsQc".to_string()], 5_000).unwrap();
    assert_eq!(result.equities.len(), 3);
    let sum = pct_sum(&result.equities);
    assert!((sum - 100.0).abs() < 0.01);
    assert!(pct(result.equities[0]) > 50.0, "AA should lead vs KK and QQ");
}

#[test]
fn equity_zero_iterations_uses_mc_with_zero() {
    // A zero budget means the default of 10,000 iterations, which is far
    // below the preflop state space, so Monte Carlo runs and succeeds.
    let result = estimate_equity("", "AhAd", &vec!["KhKd".to_string()], 0).unwrap();
    assert_eq!(result.mode, EquityEstimateMode::MonteCarlo);
    assert!(result.samples > 0);
}

#[test]
fn equity_mode_exact_on_river() {
    let result = estimate_equity("2h5h9cTdJs", "AhKh", &vec!["QsQc".to_string()], 100).unwrap();
    assert_eq!(result.mode, EquityEstimateMode::ExactEnumeration);
}

#[test]
fn equity_default_iterations() {
    // iterations=0 should default to 10_000
    let result = estimate_equity("", "AhAd", &vec!["KhKd".to_string()], 0).unwrap();
    assert!(result.samples > 5_000, "default should run ~10k samples");
}
