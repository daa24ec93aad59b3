use snapcall::{
    calculate_equity, calculate_equity_from_ranges, calculate_equity_with_math,
    calculate_equity_with_ranges, evaluate_hand, hand_type_name, parse_card, parse_cards,
    parse_range, Card, EquityEstimateMode, HandRank, SnapError, EQUITY_SCALE, SUIT_HEART,
    VALUE_ACE, VALUE_KING,
};

#[test]
fn test_parse_card() {
    let card = parse_card("Ah").unwrap();
    assert_eq!(card.value, VALUE_ACE);
    assert_eq!(card.suit, SUIT_HEART);
}

#[test]
fn test_parse_cards() {
    let cards = parse_cards("Ah Kd Qc").unwrap();
    assert_eq!(cards.len(), 3);
    assert_eq!(cards[0].value, VALUE_ACE);
}

#[test]
fn test_evaluate_royal_flush() {
    let cards = parse_cards("As Ks Qs Js Ts").unwrap();
    let rank = evaluate_hand(&cards).unwrap();
    assert!(matches!(rank, HandRank::StraightFlush(_)));
}

#[test]
fn test_evaluate_pair() {
    let cards = parse_cards("Ah Ad Kc Qd Js").unwrap();
    let rank = evaluate_hand(&cards).unwrap();
    assert!(matches!(rank, HandRank::OnePair(_)));
}

#[test]
fn test_parse_range() {
    let hands = parse_range("AKs").unwrap();
    assert!(!hands.is_empty());

    // Should include suited AK
    let has_aks = hands
        .iter()
        .any(|(v1, v2, suited)| *v1 == VALUE_ACE && *v2 == VALUE_KING && *suited);
    assert!(has_aks, "Range should include AKs");
}

#[test]
fn test_calculate_equity_uses_exact_enumeration_within_budget() {
    let players = vec!["Ah Ad".to_string(), "Kh Kd".to_string()];
    let first = calculate_equity_with_math(&players, "2c 7d 9h", 990).unwrap();
    assert_eq!(first.mode, EquityEstimateMode::ExactEnumeration);
    assert_eq!(first.samples, 990);

    let again = calculate_equity(&players, "2c 7d 9h", 990).unwrap();
    for (expected, result) in first.equities.iter().zip(again.iter()) {
        assert_eq!(expected, result);
    }
}

#[test]
fn test_calculate_equity_rejects_duplicate_cards() {
    let players = vec!["Ah Ad".to_string(), "Ah Kd".to_string()];
    let err = calculate_equity(&players, "", 100).unwrap_err();
    assert!(matches!(err, SnapError::InvalidHand(_)));
    assert!(err.message().contains("Duplicate card"));
}

#[test]
fn test_calculate_equity_with_ranges_exact_matches_single_combo_equity() {
    let p1 = parse_cards("Ah Ad").unwrap();
    let p2 = parse_cards("Kh Kd").unwrap();
    let board = parse_cards("2c 7d 9h").unwrap();

    let players = vec!["Ah Ad".to_string(), "Kh Kd".to_string()];
    let exact_from_hands = calculate_equity(&players, "2c 7d 9h", 990).unwrap();
    let exact_from_ranges =
        calculate_equity_from_ranges(&vec![vec![p1], vec![p2]], &board, 990).unwrap();

    for (lhs, rhs) in exact_from_hands.iter().zip(exact_from_ranges.iter()) {
        assert_eq!(lhs, rhs);
    }
}

#[test]
fn test_calculate_equity_with_ranges_falls_back_to_monte_carlo() {
    let p1 = parse_cards("Ah Ad").unwrap();
    let p2 = parse_cards("Kh Kd").unwrap();
    let board = parse_cards("2c 7d 9h").unwrap();

    let eq = calculate_equity_from_ranges(&vec![vec![p1], vec![p2]], &board, 1).unwrap();
    assert!(eq[0] == 0 || eq[0] == EQUITY_SCALE / 2 || eq[0] == EQUITY_SCALE);
    let sum: u64 = eq.iter().sum();
    assert!(EQUITY_SCALE - sum <= 4);
}

#[test]
fn test_calculate_equity_with_ranges_rejects_fully_colliding_ranges() {
    let p1 = parse_cards("Ah Ad").unwrap();
    let p2 = parse_cards("Ah Kd").unwrap();

    let board: Vec<Card> = vec![];
    let err = calculate_equity_from_ranges(&vec![vec![p1], vec![p2]], &board, 100).unwrap_err();
    assert!(matches!(err, SnapError::InvalidRange(_)));
    assert!(err.message().contains("No valid range combinations available"));
}

#[test]
fn test_calculate_equity_with_ranges_strings_alias() {
    let players = vec!["AhAd".to_string(), "KhKd".to_string()];
    let a = calculate_equity_with_ranges(&players, "2c7d9h", 990).unwrap();
    let b = calculate_equity(&players, "2c7d9h", 990).unwrap();
    assert_eq!(a, b);
}

#[test]
fn test_hand_type_name_class() {
    let cards = parse_cards("Ah Ad Kc Qd Js").unwrap();
    let rank = evaluate_hand(&cards).unwrap();
    assert_eq!(hand_type_name(&rank), "One Pair");
}
