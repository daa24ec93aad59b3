use snapcall::{all_cards, combination_count, combinations, n_choose_k};

#[test]
fn n_choose_k_basic() {
    assert_eq!(n_choose_k(5, 0), 1);
    assert_eq!(n_choose_k(5, 1), 5);
    assert_eq!(n_choose_k(5, 2), 10);
    assert_eq!(n_choose_k(5, 5), 1);
    assert_eq!(n_choose_k(52, 5), 2_598_960);
    assert_eq!(n_choose_k(3, 5), 0); // k > n
}

#[test]
fn for_each_combination_count() {
    let cards: Vec<snapcall::Card> = all_cards().into_iter().take(10).collect();
    let combos = combinations(&cards, 3);
    assert_eq!(combos.len(), n_choose_k(10, 3));
}

#[test]
fn test_combination_count() {
    assert_eq!(combination_count(45, 2), 990);
    assert_eq!(combination_count(44, 1), 44);
    assert_eq!(combination_count(44, 0), 1);
    assert_eq!(combination_count(5, 6), 0);
}
