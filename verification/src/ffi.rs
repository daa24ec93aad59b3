//! Flat, binding-friendly entry points: plain structs in, strings out.
//!
//! These mirror the library's core operations with every error rendered as
//! its message string, so a marshalling layer has nothing to translate.

use vstd::prelude::*;
use crate::card::{Card, card_ok};
use crate::types::EQUITY_SCALE;
use crate::parsing::{parse_card, parse_cards, parse_card_spec, parse_cards_ok, parse_cards_val};
use crate::rank::{evaluate_hand, hand_type_name, describe_rank, rank_of, hand_type_name_spec, describe_rank_spec};
use crate::engine::{scale, win_view, sum_int};

verus! {

/// A card as two plain numbers, for marshalling across bindings.
#[derive(Clone, Copy, PartialEq, Eq, Structural, Debug)]
pub struct FfiCard {
    /// Face value: `0` is a two, `12` is an ace.
    pub value: u8,
    /// Suit: `0` spade, `1` club, `2` heart, `3` diamond.
    pub suit: u8,
}

/// The library card behind a marshalled card.
pub open spec fn ffi_card_spec(f: FfiCard) -> Card {
    Card { value: f.value, suit: f.suit }
}

/// The library cards behind a marshalled card vector.
pub open spec fn ffi_cards_spec(fs: Seq<FfiCard>) -> Seq<Card> {
    Seq::new(fs.len(), |i: int| ffi_card_spec(fs[i]))
}

/// Whether marshalled cards form an evaluable hand: five to seven distinct
/// well-formed cards.
pub open spec fn ffi_hand_ok(fs: Seq<FfiCard>) -> bool {
    let cs = ffi_cards_spec(fs);
    5 <= cs.len() <= 7 && cs.no_duplicates() && forall|i: int|
        0 <= i < cs.len() ==> card_ok(#[trigger] cs[i])
}

/// Parses a card from a string, marshalled.
pub fn ffi_parse_card(card_str: String) -> (r: Result<FfiCard, String>)
    ensures
        match r {
            Ok(f) => parse_card_spec(card_str@) == Some(ffi_card_spec(f)),
            Err(_) => parse_card_spec(card_str@) is None,
        },
{
    match parse_card(card_str.as_str()) {
        Ok(c) => Ok(FfiCard { value: c.value, suit: c.suit }),
        Err(e) => Err(e.message()),
    }
}

/// Parses multiple cards from a string, marshalled.
pub fn ffi_parse_cards(cards_str: String) -> (r: Result<Vec<FfiCard>, String>)
    ensures
        match r {
            Ok(fs) => parse_cards_ok(cards_str@) && fs@.len() == parse_cards_val(cards_str@).len()
                && forall|i: int|
                0 <= i < fs@.len() ==> ffi_card_spec(#[trigger] fs@[i]) == parse_cards_val(
                    cards_str@,
                )[i],
            Err(_) => !parse_cards_ok(cards_str@),
        },
{
    match parse_cards(cards_str.as_str()) {
        Ok(cards) => {
            let mut fs: Vec<FfiCard> = Vec::new();
            let n = cards.len();
            let mut i: usize = 0;
            while i < n
                invariant
                    i <= n,
                    n == cards@.len(),
                    fs@.len() == i,
                    forall|k: int|
                        0 <= k < i ==> ffi_card_spec(#[trigger] fs@[k]) == cards@[k],
                decreases n - i,
            {
                let c = cards[i];
                fs.push(FfiCard { value: c.value, suit: c.suit });
                i = i + 1;
            }
            Ok(fs)
        },
        Err(e) => Err(e.message()),
    }
}

/// Converts marshalled cards back to library cards.
fn cards_from_ffi(cards: &Vec<FfiCard>) -> (r: Vec<Card>)
    ensures
        r@.len() == cards@.len(),
        forall|i: int| 0 <= i < r@.len() ==> #[trigger] r@[i] == ffi_card_spec(cards@[i]),
{
    let mut r: Vec<Card> = Vec::new();
    let n = cards.len();
    let mut i: usize = 0;
    while i < n
        invariant
            i <= n,
            n == cards@.len(),
            r@.len() == i,
            forall|k: int| 0 <= k < i ==> #[trigger] r@[k] == ffi_card_spec(cards@[k]),
        decreases n - i,
    {
        let f = cards[i];
        r.push(Card { value: f.value, suit: f.suit });
        i = i + 1;
    }
    r
}

/// Evaluates a hand and names its class, marshalled.
pub fn ffi_evaluate_hand(cards: Vec<FfiCard>) -> (r: Result<String, String>)
    ensures
        r is Ok <==> ffi_hand_ok(cards@),
        r is Ok ==> r->Ok_0@ == hand_type_name_spec(rank_of(ffi_cards_spec(cards@))),
{
    let converted = cards_from_ffi(&cards);
    proof {
        assert(converted@ =~= ffi_cards_spec(cards@));
    }
    match evaluate_hand(&converted) {
        Ok(rank) => Ok(hand_type_name(&rank)),
        Err(e) => Err(e.message()),
    }
}

/// Describes a hand's full rank, marshalled.
pub fn ffi_describe_hand(cards: Vec<FfiCard>) -> (r: Result<String, String>)
    ensures
        r is Ok <==> ffi_hand_ok(cards@),
        r is Ok ==> r->Ok_0@ == describe_rank_spec(rank_of(ffi_cards_spec(cards@))),
{
    let converted = cards_from_ffi(&cards);
    proof {
        assert(converted@ =~= ffi_cards_spec(cards@));
    }
    match evaluate_hand(&converted) {
        Ok(rank) => Ok(describe_rank(&rank)),
        Err(e) => Err(e.message()),
    }
}

/// The marshalled equity entry points' promise: the solver's validation
/// verdicts and, for range-free inputs within the exact budget, the
/// enumerated model value; errors carry only their message here.
pub open spec fn ffi_equities_contract(
    r: Result<Vec<u64>, String>,
    players: Seq<String>,
    board_str: Seq<char>,
    iterations: u32,
) -> bool {
    let ds = crate::solve::views_of(players);
    let bval = crate::input::board_input_val(board_str);
    let n = players.len() as int;
    &&& (n < 2 ==> r is Err)
    &&& (n >= 2 && !crate::input::board_input_ok(board_str) ==> r is Err)
    &&& (n >= 2 && crate::input::board_input_ok(board_str) && !crate::solve::descriptors_ok(
        ds,
        bval,
    ) ==> r is Err)
    &&& (n >= 2 && crate::input::board_input_ok(board_str) && crate::solve::descriptors_ok(
        ds,
        bval,
    ) && !(bval + crate::solve::descriptors_known(ds)).no_duplicates() ==> r is Err)
    &&& (n >= 2 && crate::input::board_input_ok(board_str) && crate::solve::descriptors_ok(
        ds,
        bval,
    ) && (bval + crate::solve::descriptors_known(ds)).no_duplicates() && !crate::solve::sizes_ok(
        n,
        bval.len() as int,
    ) ==> r is Err)
    &&& (crate::solve::inputs_admitted(ds, board_str) && crate::solve::no_range_descriptor(ds)
        ==> {
        let models = crate::solve::descriptor_models(ds);
        let cnt = crate::solve::assignment_count(models, bval);
        let lim = crate::solve::exact_assignment_limit(
            crate::combinatorics::default_iterations_spec(iterations) as nat,
            crate::solve::runout_count(n, bval.len() as int),
        );
        &&& (cnt == 0 ==> r is Err)
        &&& (0 < cnt <= lim ==> r is Ok && win_view(r->Ok_0@) == crate::engine::exact_equities(
            crate::assign::assign_seqs(crate::assign::spec_candidates(models), bval.to_set()),
            bval,
            players.len(),
        ))
    })
    &&& (r is Ok ==> crate::solve::inputs_admitted(ds, board_str) && {
        &&& r->Ok_0@.len() == n
        &&& forall|i: int| 0 <= i < r->Ok_0@.len() ==> #[trigger] r->Ok_0@[i] <= EQUITY_SCALE
        &&& scale() - 2 * n < sum_int(win_view(r->Ok_0@)) <= scale()
    })
}

/// Calculates equity from string inputs, marshalled: equities come back in
/// units of [`EQUITY_SCALE`] = 100%.
pub fn ffi_calculate_equity(player_hands: Vec<String>, board: String, iterations: u32) -> (r:
    Result<Vec<u64>, String>)
    ensures
        ffi_equities_contract(r, player_hands@, board@, iterations),
{
    match crate::solve::calculate_equity(&player_hands, board.as_str(), iterations) {
        Ok(eq) => Ok(eq),
        Err(e) => Err(e.message()),
    }
}

/// As [`ffi_calculate_equity`]; the name mirrors the range-oriented entry.
pub fn ffi_calculate_equity_with_ranges(
    player_ranges: Vec<String>,
    board: String,
    iterations: u32,
) -> (r: Result<Vec<u64>, String>)
    ensures
        ffi_equities_contract(r, player_ranges@, board@, iterations),
{
    match crate::solve::calculate_equity_with_ranges(&player_ranges, board.as_str(), iterations) {
        Ok(eq) => Ok(eq),
        Err(e) => Err(e.message()),
    }
}

} // verus!
