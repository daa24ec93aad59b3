use snapcall::{BoardCardsInput, HoleCardsInput};

#[test]
fn input_hole_cards_exact() {
    let hand: HoleCardsInput = "AhAd".parse().unwrap();
    assert!(matches!(hand, HoleCardsInput::Exact(_)));
}

#[test]
fn tests_hole_cards_exact() {
    let hand: HoleCardsInput = "AhAd".parse().unwrap();
    assert!(matches!(hand, HoleCardsInput::Exact(_)));
}

#[test]
fn input_hole_cards_exact_with_whitespace() {
    let hand: HoleCardsInput = " Ah Kd ".parse().unwrap();
    assert!(matches!(hand, HoleCardsInput::Exact(_)));
}

#[test]
fn tests_hole_cards_exact_with_whitespace() {
    let hand: HoleCardsInput = " Ah Kd ".parse().unwrap();
    assert!(matches!(hand, HoleCardsInput::Exact(_)));
}

#[test]
fn input_hole_cards_exact_with_comma() {
    let hand: HoleCardsInput = "Ah,Kd".parse().unwrap();
    assert!(matches!(hand, HoleCardsInput::Exact(_)));
}

#[test]
fn tests_hole_cards_exact_with_comma() {
    let hand: HoleCardsInput = "Ah,Kd".parse().unwrap();
    assert!(matches!(hand, HoleCardsInput::Exact(_)));
}

#[test]
fn input_hole_cards_partial() {
    let partial: HoleCardsInput = "Ah".parse().unwrap();
    assert!(matches!(partial, HoleCardsInput::Partial(_)));
}

#[test]
fn tests_hole_cards_partial() {
    let partial: HoleCardsInput = "Ah".parse().unwrap();
    assert!(matches!(partial, HoleCardsInput::Partial(_)));
}

#[test]
fn input_hole_cards_unknown() {
    let unknown: HoleCardsInput = "".parse().unwrap();
    assert!(matches!(unknown, HoleCardsInput::Unknown));
}

#[test]
fn tests_hole_cards_unknown() {
    let unknown: HoleCardsInput = "".parse().unwrap();
    assert!(matches!(unknown, HoleCardsInput::Unknown));
}

#[test]
fn input_hole_cards_range() {
    let hand: HoleCardsInput = "TT+".parse().unwrap();
    assert!(matches!(hand, HoleCardsInput::Range(_)));
}

#[test]
fn tests_hole_cards_range() {
    let hand: HoleCardsInput = "TT+".parse().unwrap();
    assert!(matches!(hand, HoleCardsInput::Range(_)));
}

#[test]
fn input_hole_cards_range_suited() {
    let hand: HoleCardsInput = "AKs".parse().unwrap();
    assert!(matches!(hand, HoleCardsInput::Range(_)));
}

#[test]
fn tests_hole_cards_range_suited() {
    let hand: HoleCardsInput = "AKs".parse().unwrap();
    assert!(matches!(hand, HoleCardsInput::Range(_)));
}

#[test]
fn input_hole_cards_three_cards_is_error() {
    let result: Result<HoleCardsInput, _> = "AhKdQc".parse();
    assert!(result.is_err());
}

#[test]
fn tests_hole_cards_three_cards_is_error() {
    let result: Result<HoleCardsInput, _> = "AhKdQc".parse();
    assert!(result.is_err());
}

#[test]
fn input_board_preflop() {
    let board: BoardCardsInput = "".parse().unwrap();
    assert!(matches!(board, BoardCardsInput::PreFlop));
    assert!(board.cards().is_empty());
}

#[test]
fn tests_board_preflop() {
    let board: BoardCardsInput = "".parse().unwrap();
    assert!(matches!(board, BoardCardsInput::PreFlop));
    assert!(board.cards().is_empty());
}

#[test]
fn input_board_flop() {
    let board: BoardCardsInput = "AsKdQh".parse().unwrap();
    assert!(matches!(board, BoardCardsInput::Flop(_)));
    assert_eq!(board.cards().len(), 3);
}

#[test]
fn tests_board_flop() {
    let board: BoardCardsInput = "AsKdQh".parse().unwrap();
    assert!(matches!(board, BoardCardsInput::Flop(_)));
    assert_eq!(board.cards().len(), 3);
}

#[test]
fn input_board_turn() {
    let board: BoardCardsInput = "AsKdQh2c".parse().unwrap();
    assert!(matches!(board, BoardCardsInput::Turn(_)));
    assert_eq!(board.cards().len(), 4);
}

#[test]
fn tests_board_turn() {
    let board: BoardCardsInput = "AsKdQh2c".parse().unwrap();
    assert!(matches!(board, BoardCardsInput::Turn(_)));
    assert_eq!(board.cards().len(), 4);
}

#[test]
fn input_board_river() {
    let board: BoardCardsInput = "AsKdQh2c9d".parse().unwrap();
    assert!(matches!(board, BoardCardsInput::River(_)));
    assert_eq!(board.cards().len(), 5);
}

#[test]
fn tests_board_river() {
    let board: BoardCardsInput = "AsKdQh2c9d".parse().unwrap();
    assert!(matches!(board, BoardCardsInput::River(_)));
    assert_eq!(board.cards().len(), 5);
}

#[test]
fn input_board_with_whitespace_and_commas() {
    let board: BoardCardsInput = "As, Kd, Qh".parse().unwrap();
    assert!(matches!(board, BoardCardsInput::Flop(_)));
}

#[test]
fn tests_board_with_whitespace_and_commas() {
    let board: BoardCardsInput = "As, Kd, Qh".parse().unwrap();
    assert!(matches!(board, BoardCardsInput::Flop(_)));
}

#[test]
fn input_board_one_card_is_error() {
    let result: Result<BoardCardsInput, _> = "As".parse();
    assert!(result.is_err());
}

#[test]
fn tests_board_one_card_is_error() {
    let result: Result<BoardCardsInput, _> = "As".parse();
    assert!(result.is_err());
}

#[test]
fn input_board_two_cards_is_error() {
    let result: Result<BoardCardsInput, _> = "AsKd".parse();
    assert!(result.is_err());
}

#[test]
fn tests_board_two_cards_is_error() {
    let result: Result<BoardCardsInput, _> = "AsKd".parse();
    assert!(result.is_err());
}

#[test]
fn input_board_invalid_card_is_error() {
    let result: Result<BoardCardsInput, _> = "XxYyZz".parse();
    assert!(result.is_err());
}

#[test]
fn tests_board_invalid_card_is_error() {
    let result: Result<BoardCardsInput, _> = "XxYyZz".parse();
    assert!(result.is_err());
}
