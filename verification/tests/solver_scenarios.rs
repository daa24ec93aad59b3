use snapcall::{
    calculate_equity, calculate_equity_with_math, ffi_calculate_equity, ffi_describe_hand,
    ffi_evaluate_hand, ffi_parse_card, ffi_parse_cards, normalize_cards_str,
    parse_player_hand_input, Card, EquityEstimateMode, FfiCard, HoleCardsInput, SnapError,
    EQUITY_SCALE,
};

fn pct(e: u64) -> f64 {
    (e as f64) * 100.0 / (EQUITY_SCALE as f64)
}

fn players(names: &[&str]) -> Vec<String> {
    names.iter().map(|s| s.to_string()).collect()
}

#[test]
fn scenario_preflop_aa_vs_kk() {
    let eq = calculate_equity(&players(&["AhAd", "KhKd"]), "", 10_000).unwrap();
    assert!(pct(eq[0]) >= 78.0 && pct(eq[0]) <= 84.0);
}

#[test]
fn scenario_river_pair_beats_high_card() {
    let res = calculate_equity_with_math(&players(&["AhKh", "QsQc"]), "2h5h9cTdJs", 100).unwrap();
    assert_eq!(res.mode, EquityEstimateMode::ExactEnumeration);
    assert_eq!(res.samples, 1);
    assert_eq!(res.equities[1], EQUITY_SCALE);
    assert_eq!(res.equities[0], 0);
}

#[test]
fn scenario_flop_exact_990_states() {
    let res = calculate_equity_with_math(&players(&["AhAd", "KhKd"]), "2c7d9h", 990).unwrap();
    assert_eq!(res.mode, EquityEstimateMode::ExactEnumeration);
    assert_eq!(res.samples, 990);
}

#[test]
fn scenario_aa_vs_unknown() {
    let eq = calculate_equity(&players(&["AhAd", ""]), "", 5_000).unwrap();
    assert!(pct(eq[0]) > 80.0);
}

#[test]
fn scenario_aa_vs_pair_range() {
    let eq = calculate_equity(&players(&["AhAd", "TT+"]), "", 5_000).unwrap();
    assert!(pct(eq[0]) > 60.0);
}

#[test]
fn scenario_suited_connector_vs_pair() {
    let eq = calculate_equity(&players(&["AKs", "TT"]), "", 5_000).unwrap();
    let sum: f64 = eq.iter().map(|&e| pct(e)).sum();
    assert!((sum - 100.0).abs() < 0.01);
}

#[test]
fn exact_engine_bit_identical_across_runs() {
    let hands = players(&["AhAd", "KhKd", "QsQc"]);
    let r1 = calculate_equity_with_math(&hands, "2c7d9h", 2_000).unwrap();
    let r2 = calculate_equity_with_math(&hands, "2c7d9h", 2_000).unwrap();
    assert_eq!(r1.mode, EquityEstimateMode::ExactEnumeration);
    assert_eq!(r1.equities, r2.equities);
    assert_eq!(r1.samples, r2.samples);
}

#[test]
fn permuting_players_permutes_equities() {
    let r1 = calculate_equity(&players(&["AhAd", "KhKd", "QsQc"]), "2c7d9h", 5_000).unwrap();
    let r2 = calculate_equity(&players(&["QsQc", "AhAd", "KhKd"]), "2c7d9h", 5_000).unwrap();
    assert_eq!(r1[0], r2[1]);
    assert_eq!(r1[1], r2[2]);
    assert_eq!(r1[2], r2[0]);
}

#[test]
fn singleton_range_matches_exact_input() {
    // Fully known hands and the same hands as one-holding ranges agree.
    let p1 = snapcall::parse_cards("AhAd").unwrap();
    let p2 = snapcall::parse_cards("KhKd").unwrap();
    let p3 = snapcall::parse_cards("QsQc").unwrap();
    let board = snapcall::parse_cards("2c7d9h").unwrap();
    let exact = calculate_equity(&players(&["AhAd", "KhKd", "QsQc"]), "2c7d9h", 5_000).unwrap();
    let ranged = snapcall::calculate_equity_from_ranges(
        &vec![vec![p1], vec![p2], vec![p3]],
        &board,
        5_000,
    )
    .unwrap();
    assert_eq!(exact, ranged);
}

#[test]
fn single_player_errors_with_invalid_hand() {
    let err = calculate_equity(&players(&["AhAd"]), "", 100).unwrap_err();
    assert!(matches!(err, SnapError::InvalidHand(_)));
}

#[test]
fn too_many_players_errors_with_invalid_hand() {
    // 27 players need 54 cards: over the 52-card capacity.
    let blank: Vec<String> = (0..27).map(|_| String::new()).collect();
    let err = calculate_equity(&blank, "", 100).unwrap_err();
    assert!(matches!(err, SnapError::InvalidHand(_)));

    // 24 players fit the deck but leave no five-card runout.
    let blank24: Vec<String> = (0..24).map(|_| String::new()).collect();
    let err = calculate_equity(&blank24, "", 100).unwrap_err();
    assert!(matches!(err, SnapError::InvalidHand(_)));
}

#[test]
fn duplicate_known_card_errors() {
    let err = calculate_equity(&players(&["AhKd", "AhQs"]), "", 100).unwrap_err();
    assert!(matches!(err, SnapError::InvalidHand(_)));
}

#[test]
fn range_fully_colliding_with_board_errors() {
    // Every pair of aces needs two of the four aces; with three on the
    // board no holding survives.
    let err = calculate_equity(&players(&["AA", "KhKd"]), "AhAdAc", 100).unwrap_err();
    assert!(matches!(err, SnapError::InvalidRange(_)));
}

#[test]
fn invalid_card_token_errors() {
    let err = snapcall::parse_card("Xz").unwrap_err();
    assert!(matches!(err, SnapError::InvalidCard(_)));
    assert!(err.message().contains("Xz"));

    // A card token is exactly two characters: trailing characters reject it.
    assert!(snapcall::parse_card("Ahx").is_err());
    assert!(snapcall::parse_cards("Ah Kdx").is_err());
    let spec = snapcall::parse_player_hand_input("Ahx", &vec![]);
    assert!(spec.is_err());
}

#[test]
fn typed_board_of_one_or_two_cards_errors() {
    let p1 = snapcall::parse_cards("AhAd").unwrap();
    let p2 = snapcall::parse_cards("KhKd").unwrap();
    let board = snapcall::parse_cards("2c7d").unwrap();
    let err = snapcall::calculate_equity_from_ranges(&vec![vec![p1], vec![p2]], &board, 100)
        .unwrap_err();
    assert!(matches!(err, SnapError::InvalidHand(_)));
    assert!(err.message().contains("0, 3, 4, or 5"));
}

#[test]
fn deck_order_is_value_major_suit_cycled() {
    // Values descend from the ace; suits cycle spade, heart, diamond, club.
    let deck = snapcall::all_cards();
    assert_eq!(deck.len(), 52);
    assert_eq!(deck[0], Card { value: 12, suit: 0 });
    assert_eq!(deck[1], Card { value: 12, suit: 2 });
    assert_eq!(deck[2], Card { value: 12, suit: 3 });
    assert_eq!(deck[3], Card { value: 12, suit: 1 });
    assert_eq!(deck[4], Card { value: 11, suit: 0 });
    assert_eq!(deck[51], Card { value: 0, suit: 1 });
}

#[test]
fn range_expansion_covers_all_holdings() {
    // A pocket pair expands to the six ways of holding two of four suits.
    let board: Vec<Card> = vec![];
    let spec = parse_player_hand_input("AA", &board).unwrap();
    match spec {
        HoleCardsInput::Range(v) => assert_eq!(v.len(), 6),
        _ => panic!("AA should parse as a range"),
    }
}

#[test]
fn normalize_strips_separators() {
    assert_eq!(normalize_cards_str("Ah, Kd"), "AhKd");
    assert_eq!(normalize_cards_str(" As \t Ks \n"), "AsKs");
}

#[test]
fn ffi_round_trip_and_equity() {
    let fc = ffi_parse_card("Ah".to_string()).unwrap();
    assert_eq!(fc, FfiCard { value: 12, suit: 2 });
    assert!(ffi_parse_card("Zz".to_string()).is_err());

    let cards = ffi_parse_cards("As Ks Qs Js Ts".to_string()).unwrap();
    assert_eq!(cards.len(), 5);
    assert_eq!(ffi_evaluate_hand(cards.clone()).unwrap(), "Straight Flush");
    assert!(ffi_describe_hand(cards).unwrap().starts_with("StraightFlush("));

    let eq = ffi_calculate_equity(
        vec!["AhKh".to_string(), "QsQc".to_string()],
        "2h5h9cTdJs".to_string(),
        100,
    )
    .unwrap();
    assert_eq!(eq[1], EQUITY_SCALE);
}

#[test]
fn evaluate_hand_rejects_bad_sizes_and_duplicates() {
    let four = snapcall::parse_cards("AhKdQc2s").unwrap();
    assert!(snapcall::evaluate_hand(&four).is_err());

    let dup = vec![
        Card { value: 12, suit: 2 },
        Card { value: 12, suit: 2 },
        Card { value: 3, suit: 0 },
        Card { value: 4, suit: 0 },
        Card { value: 5, suit: 0 },
    ];
    assert!(snapcall::evaluate_hand(&dup).is_err());
}

#[test]
fn mc_equities_sum_to_scale_within_tolerance() {
    let eq = calculate_equity(&players(&["AhAd", "KhKd", ""]), "", 3_000).unwrap();
    let sum: u64 = eq.iter().sum();
    assert!(EQUITY_SCALE - sum <= 6);
    assert!(sum <= EQUITY_SCALE);
}
