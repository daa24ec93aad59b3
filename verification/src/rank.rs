//! The hand-rank primitive: a totally ordered score for 5-to-7-card hands.
//!
//! The evaluator itself is rs_poker's best-of-five ranker, taken as a correct
//! black box; everything around it — the ordering, the category names, the
//! public entry point — is verified here.

use vstd::prelude::*;
use crate::card::{Card, card_ok};
use crate::types::SnapError;
use crate::strutil::{push_char, append_u64, dec_rep};

verus! {

/// The rank of a poker hand: a category and a tie-breaking detail value.
///
/// Ranks order first by category (high card lowest, straight flush highest),
/// then by the detail value within the category; see [`rank_le`].
#[derive(Clone, Copy, PartialEq, Eq, Structural, Debug)]
pub enum HandRank {
    HighCard(u32),
    OnePair(u32),
    TwoPair(u32),
    ThreeOfAKind(u32),
    Straight(u32),
    Flush(u32),
    FullHouse(u32),
    FourOfAKind(u32),
    StraightFlush(u32),
}

/// The category of a rank, from 0 (high card) to 8 (straight flush).
pub open spec fn rank_category_spec(r: HandRank) -> int {
    match r {
        HandRank::HighCard(_) => 0,
        HandRank::OnePair(_) => 1,
        HandRank::TwoPair(_) => 2,
        HandRank::ThreeOfAKind(_) => 3,
        HandRank::Straight(_) => 4,
        HandRank::Flush(_) => 5,
        HandRank::FullHouse(_) => 6,
        HandRank::FourOfAKind(_) => 7,
        HandRank::StraightFlush(_) => 8,
    }
}

/// The tie-breaking detail of a rank.
pub open spec fn rank_detail_spec(r: HandRank) -> u32 {
    match r {
        HandRank::HighCard(v) => v,
        HandRank::OnePair(v) => v,
        HandRank::TwoPair(v) => v,
        HandRank::ThreeOfAKind(v) => v,
        HandRank::Straight(v) => v,
        HandRank::Flush(v) => v,
        HandRank::FullHouse(v) => v,
        HandRank::FourOfAKind(v) => v,
        HandRank::StraightFlush(v) => v,
    }
}

/// The total order on ranks: by category, then by detail.
pub open spec fn rank_le(a: HandRank, b: HandRank) -> bool {
    rank_category_spec(a) < rank_category_spec(b) || (rank_category_spec(a)
        == rank_category_spec(b) && rank_detail_spec(a) <= rank_detail_spec(b))
}

/// The category of a rank, executable twin of [`rank_category_spec`].
pub fn rank_category(r: &HandRank) -> (c: u8)
    ensures
        c == rank_category_spec(*r),
{
    match r {
        HandRank::HighCard(_) => 0,
        HandRank::OnePair(_) => 1,
        HandRank::TwoPair(_) => 2,
        HandRank::ThreeOfAKind(_) => 3,
        HandRank::Straight(_) => 4,
        HandRank::Flush(_) => 5,
        HandRank::FullHouse(_) => 6,
        HandRank::FourOfAKind(_) => 7,
        HandRank::StraightFlush(_) => 8,
    }
}

/// The tie-breaking detail, executable twin of [`rank_detail_spec`].
pub fn rank_detail(r: &HandRank) -> (v: u32)
    ensures
        v == rank_detail_spec(*r),
{
    match r {
        HandRank::HighCard(v) => *v,
        HandRank::OnePair(v) => *v,
        HandRank::TwoPair(v) => *v,
        HandRank::ThreeOfAKind(v) => *v,
        HandRank::Straight(v) => *v,
        HandRank::Flush(v) => *v,
        HandRank::FullHouse(v) => *v,
        HandRank::FourOfAKind(v) => *v,
        HandRank::StraightFlush(v) => *v,
    }
}

/// Whether `a` ranks at or below `b`.
pub fn rank_at_most(a: &HandRank, b: &HandRank) -> (r: bool)
    ensures
        r == rank_le(*a, *b),
{
    let ca = rank_category(a);
    let cb = rank_category(b);
    if ca < cb {
        true
    } else if ca == cb {
        rank_detail(a) <= rank_detail(b)
    } else {
        false
    }
}

/// What the black-box evaluator scores a deck-index sequence as: the
/// hand-class index and the tie-breaking detail. The pair is a function of
/// the index sequence alone; nothing here says which score a given hand
/// receives.
pub uninterp spec fn rank_code_of(ids: Seq<u8>) -> (u8, u32);

/// rs_poker's deck index of a card: `suit * 13 + value`.
pub open spec fn poker_id(c: Card) -> int {
    c.suit * 13 + c.value
}

/// The deck indices of a card sequence.
pub open spec fn ids_of(cards: Seq<Card>) -> Seq<u8> {
    Seq::new(cards.len(), |i: int| poker_id(cards[i]) as u8)
}

/// The rank named by a class index and detail value. Class indices above
/// the straight flush do not occur; they read as a straight flush, the
/// topmost class.
pub open spec fn rank_from_code(code: (u8, u32)) -> HandRank {
    if code.0 == 0 {
        HandRank::HighCard(code.1)
    } else if code.0 == 1 {
        HandRank::OnePair(code.1)
    } else if code.0 == 2 {
        HandRank::TwoPair(code.1)
    } else if code.0 == 3 {
        HandRank::ThreeOfAKind(code.1)
    } else if code.0 == 4 {
        HandRank::Straight(code.1)
    } else if code.0 == 5 {
        HandRank::Flush(code.1)
    } else if code.0 == 6 {
        HandRank::FullHouse(code.1)
    } else if code.0 == 7 {
        HandRank::FourOfAKind(code.1)
    } else {
        HandRank::StraightFlush(code.1)
    }
}

/// What the black-box evaluator scores a card sequence as.
pub open spec fn rank_of(cards: Seq<Card>) -> HandRank {
    rank_from_code(rank_code_of(ids_of(cards)))
}

/// Relies on rs_poker's `Rankable::rank` for `Vec<Card>`: the best
/// five-card rank of the cards with the given deck indices, returned as
/// the hand-class index (high card 0 up to straight flush 8) and the
/// tie-breaking detail. Five to seven distinct in-range indices are
/// required: more than four cards of one face value would overrun the
/// evaluator's per-value counters, and a hand of under five distinct
/// cards can leave it with no kicker bits to keep, an arithmetic
/// underflow in its bit scan.
#[verifier::external_body]
fn rank_ids(ids: &Vec<u8>) -> (r: (u8, u32))
    requires
        5 <= ids@.len() <= 7,
        forall|i: int| 0 <= i < ids@.len() ==> #[trigger] ids@[i] < 52,
        ids@.no_duplicates(),
    ensures
        r == rank_code_of(ids@),
{
    let conv: Vec<_> = ids.iter().copied().map(rs_poker::core::Card::from).collect();
    match rs_poker::core::Rankable::rank(&conv) {
        rs_poker::core::Rank::HighCard(v) => (0, v),
        rs_poker::core::Rank::OnePair(v) => (1, v),
        rs_poker::core::Rank::TwoPair(v) => (2, v),
        rs_poker::core::Rank::ThreeOfAKind(v) => (3, v),
        rs_poker::core::Rank::Straight(v) => (4, v),
        rs_poker::core::Rank::Flush(v) => (5, v),
        rs_poker::core::Rank::FullHouse(v) => (6, v),
        rs_poker::core::Rank::FourOfAKind(v) => (7, v),
        rs_poker::core::Rank::StraightFlush(v) => (8, v),
    }
}

/// Distinct well-formed cards carry distinct deck indices.
proof fn lemma_poker_id_injective(a: Card, b: Card)
    requires
        card_ok(a),
        card_ok(b),
        poker_id(a) == poker_id(b),
    ensures
        a == b,
{
    assert(a.value == b.value && a.suit == b.suit) by (nonlinear_arith)
        requires
            a.value < 13 && a.suit < 4 && b.value < 13 && b.suit < 4,
            a.suit * 13 + a.value == b.suit * 13 + b.value,
    ;
}

/// Ranks a hand of five to seven distinct well-formed cards through the
/// evaluator.
#[verifier::loop_isolation(false)]
pub(crate) fn rank_cards(cards: &Vec<Card>) -> (r: HandRank)
    requires
        5 <= cards@.len() <= 7,
        forall|i: int| 0 <= i < cards@.len() ==> card_ok(#[trigger] cards@[i]),
        cards@.no_duplicates(),
    ensures
        r == rank_of(cards@),
{
    let n = cards.len();
    let mut ids: Vec<u8> = Vec::new();
    let mut i: usize = 0;
    while i < n
        invariant
            i <= n,
            ids@.len() == i,
            forall|k: int| 0 <= k < i ==> #[trigger] ids@[k] == ids_of(cards@)[k],
        decreases n - i,
    {
        let c = cards[i];
        proof {
            assert(c.suit * 13 + c.value < 52) by (nonlinear_arith)
                requires
                    c.suit < 4 && c.value < 13,
            ;
        }
        ids.push(c.suit * 13 + c.value);
        i = i + 1;
    }
    proof {
        assert(ids@ =~= ids_of(cards@));
        assert forall|k: int| 0 <= k < ids@.len() implies #[trigger] ids@[k] < 52 by {
            assert(poker_id(cards@[k]) < 52) by (nonlinear_arith)
                requires
                    cards@[k].suit < 4 && cards@[k].value < 13,
            ;
        }
        assert forall|a: int, b: int|
            0 <= a < ids@.len() && 0 <= b < ids@.len() && a != b implies ids@[a] != ids@[b] by {
            if ids@[a] == ids@[b] {
                lemma_poker_id_injective(cards@[a], cards@[b]);
            }
        }
        assert(ids@.no_duplicates());
    }
    let code = rank_ids(&ids);
    let (cat, v) = code;
    let r = if cat == 0 {
        HandRank::HighCard(v)
    } else if cat == 1 {
        HandRank::OnePair(v)
    } else if cat == 2 {
        HandRank::TwoPair(v)
    } else if cat == 3 {
        HandRank::ThreeOfAKind(v)
    } else if cat == 4 {
        HandRank::Straight(v)
    } else if cat == 5 {
        HandRank::Flush(v)
    } else if cat == 6 {
        HandRank::FullHouse(v)
    } else if cat == 7 {
        HandRank::FourOfAKind(v)
    } else {
        HandRank::StraightFlush(v)
    };
    proof {
        assert(r == rank_from_code(code));
    }
    r
}

/// Evaluates a poker hand and returns its rank.
///
/// Supports 5, 6, or 7 distinct cards and uses best-5 evaluation.
pub fn evaluate_hand(cards: &Vec<Card>) -> (r: Result<HandRank, SnapError>)
    ensures
        match r {
            Ok(rank) => cards@.len() >= 5 && cards@.len() <= 7 && cards@.no_duplicates()
                && (forall|i: int| 0 <= i < cards@.len() ==> card_ok(#[trigger] cards@[i]))
                && rank == rank_of(cards@),
            Err(e) => {
                &&& !(cards@.len() >= 5 && cards@.len() <= 7 && cards@.no_duplicates()
                    && (forall|i: int| 0 <= i < cards@.len() ==> card_ok(#[trigger] cards@[i])))
                &&& e matches SnapError::InvalidHand(m) && (m@
                    == "Hand must have 5-7 cards, got "@ + dec_rep(cards@.len() as int) || m@
                    == "Hand contains an invalid or duplicate card"@)
            },
        },
{
    let n = cards.len();
    if n < 5 || n > 7 {
        let mut m = String::from_str("Hand must have 5-7 cards, got ");
        append_u64(&mut m, n as u64);
        return Err(SnapError::InvalidHand(m));
    }
    let mut i: usize = 0;
    while i < n
        invariant
            i <= n,
            n == cards@.len(),
            cards@.take(i as int).no_duplicates(),
            forall|k: int| 0 <= k < i ==> card_ok(#[trigger] cards@[k]),
            forall|k: int, l: int| 0 <= k < l < i ==> cards@[k] != cards@[l],
        decreases n - i,
    {
        let c = cards[i];
        if c.value >= 13 || c.suit >= 4 {
            return Err(SnapError::InvalidHand(String::from_str(
                "Hand contains an invalid or duplicate card",
            )));
        }
        let mut j: usize = 0;
        while j < i
            invariant
                j <= i < n,
                n == cards@.len(),
                c == cards@[i as int],
                forall|k: int| 0 <= k < j ==> cards@[k] != c,
            decreases i - j,
        {
            if cards[j].value == c.value && cards[j].suit == c.suit {
                return Err(SnapError::InvalidHand(String::from_str(
                    "Hand contains an invalid or duplicate card",
                )));
            }
            j = j + 1;
        }
        proof {
            assert(cards@.take(i + 1).drop_last() =~= cards@.take(i as int));
        }
        i = i + 1;
    }
    proof {
        assert(cards@.take(n as int) =~= cards@);
    }
    Ok(rank_cards(cards))
}

/// The display name of a rank's hand class.
pub fn hand_type_name(rank: &HandRank) -> (r: String)
    ensures
        r@ == hand_type_name_spec(*rank),
{
    match rank {
        HandRank::HighCard(_) => String::from_str("High Card"),
        HandRank::OnePair(_) => String::from_str("One Pair"),
        HandRank::TwoPair(_) => String::from_str("Two Pair"),
        HandRank::ThreeOfAKind(_) => String::from_str("Three of a Kind"),
        HandRank::Straight(_) => String::from_str("Straight"),
        HandRank::Flush(_) => String::from_str("Flush"),
        HandRank::FullHouse(_) => String::from_str("Full House"),
        HandRank::FourOfAKind(_) => String::from_str("Four of a Kind"),
        HandRank::StraightFlush(_) => String::from_str("Straight Flush"),
    }
}

/// What [`hand_type_name`] returns.
pub open spec fn hand_type_name_spec(rank: HandRank) -> Seq<char> {
    match rank {
        HandRank::HighCard(_) => "High Card"@,
        HandRank::OnePair(_) => "One Pair"@,
        HandRank::TwoPair(_) => "Two Pair"@,
        HandRank::ThreeOfAKind(_) => "Three of a Kind"@,
        HandRank::Straight(_) => "Straight"@,
        HandRank::Flush(_) => "Flush"@,
        HandRank::FullHouse(_) => "Full House"@,
        HandRank::FourOfAKind(_) => "Four of a Kind"@,
        HandRank::StraightFlush(_) => "Straight Flush"@,
    }
}

/// The debug-style description of a rank: its variant name and detail value.
pub fn describe_rank(rank: &HandRank) -> (r: String)
    ensures
        r@ == describe_rank_spec(*rank),
{
    let mut m = match rank {
        HandRank::HighCard(_) => String::from_str("HighCard("),
        HandRank::OnePair(_) => String::from_str("OnePair("),
        HandRank::TwoPair(_) => String::from_str("TwoPair("),
        HandRank::ThreeOfAKind(_) => String::from_str("ThreeOfAKind("),
        HandRank::Straight(_) => String::from_str("Straight("),
        HandRank::Flush(_) => String::from_str("Flush("),
        HandRank::FullHouse(_) => String::from_str("FullHouse("),
        HandRank::FourOfAKind(_) => String::from_str("FourOfAKind("),
        HandRank::StraightFlush(_) => String::from_str("StraightFlush("),
    };
    let v = rank_detail(rank);
    append_u64(&mut m, v as u64);
    push_char(&mut m, ')');
    m
}

/// What [`describe_rank`] returns.
pub open spec fn describe_rank_spec(rank: HandRank) -> Seq<char> {
    let head = match rank {
        HandRank::HighCard(_) => "HighCard("@,
        HandRank::OnePair(_) => "OnePair("@,
        HandRank::TwoPair(_) => "TwoPair("@,
        HandRank::ThreeOfAKind(_) => "ThreeOfAKind("@,
        HandRank::Straight(_) => "Straight("@,
        HandRank::Flush(_) => "Flush("@,
        HandRank::FullHouse(_) => "FullHouse("@,
        HandRank::FourOfAKind(_) => "FourOfAKind("@,
        HandRank::StraightFlush(_) => "StraightFlush("@,
    };
    (head + dec_rep(rank_detail_spec(rank) as int)).push(')')
}

} // verus!
