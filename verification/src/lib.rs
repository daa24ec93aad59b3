//! Texas Hold'em equity solver.
//!
//! The solver computes each seated player's share of the pot — the
//! probability-weighted fraction of deals it wins — from partial knowledge of
//! hole cards and community cards. Inputs are normalized into an internal
//! model, an adaptive selector chooses between exhaustive enumeration of the
//! remaining deal space and Monte Carlo sampling, and a best-of-seven hand
//! ranker attributes one win unit per tied winner per deal.
//!
//! Equities are reported as integers scaled so that [`EQUITY_SCALE`] stands
//! for 100%: the engines work in exact integer arithmetic, so the exact
//! enumeration path is a pure function of its input.

mod card;
mod types;
mod strutil;
mod rank;
mod parsing;
mod combinatorics;
mod input;
mod assign;
mod engine;
mod monte_carlo;
mod solve;
mod ffi;
mod laws;

pub use card::{Card, Combo};
pub use card::{SUIT_SPADE, SUIT_CLUB, SUIT_HEART, SUIT_DIAMOND};
pub use card::{VALUE_TWO, VALUE_TEN, VALUE_JACK, VALUE_QUEEN, VALUE_KING, VALUE_ACE};
pub use types::{SnapError, EquityEstimateMode, EquityResult, EquityMath, EQUITY_SCALE};
pub use rank::{HandRank, evaluate_hand, hand_type_name, describe_rank};
pub use parsing::{parse_card, parse_cards, parse_range, normalize_cards_str};
pub use combinatorics::{all_cards, n_choose_k, combination_count, default_iterations, combinations};
pub use input::{HoleCardsInput, BoardCardsInput, parse_player_hand_input, parse_board_input, card_token};
pub use assign::{count_valid_assignments_for_specs, valid_assignments_for_specs};
pub use solve::{calculate_equity, calculate_equity_with_math, calculate_equity_with_ranges, calculate_equity_from_ranges, estimate_equity};
pub use ffi::{FfiCard, ffi_parse_card, ffi_parse_cards, ffi_evaluate_hand, ffi_describe_hand, ffi_calculate_equity, ffi_calculate_equity_with_ranges};
pub use laws::{lemma_river_exact_single_state, lemma_exact_matches_singleton_range, lemma_exact_path_deterministic, lemma_all_exact_single_assignment, lemma_tuple_equity_swap, lemma_all_exact_swap_equities, lemma_singleton_lists_same_candidates, lemma_nodup_gives_disjoint};
