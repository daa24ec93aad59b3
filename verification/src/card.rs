//! The card model: a 52-card universe of (value, suit) pairs.

use vstd::prelude::*;

verus! {

/// Card value `2`, the lowest.
pub const VALUE_TWO: u8 = 0;
/// Card value `T`.
pub const VALUE_TEN: u8 = 8;
/// Card value `J`.
pub const VALUE_JACK: u8 = 9;
/// Card value `Q`.
pub const VALUE_QUEEN: u8 = 10;
/// Card value `K`.
pub const VALUE_KING: u8 = 11;
/// Card value `A`, the highest.
pub const VALUE_ACE: u8 = 12;

/// Suit `s`.
pub const SUIT_SPADE: u8 = 0;
/// Suit `c`.
pub const SUIT_CLUB: u8 = 1;
/// Suit `h`.
pub const SUIT_HEART: u8 = 2;
/// Suit `d`.
pub const SUIT_DIAMOND: u8 = 3;

/// A playing card: a value (`0..13`, two lowest, ace highest) and a suit
/// (`0..4`). Equality is structural; cards are small copyable values.
#[derive(Clone, Copy, PartialEq, Eq, Structural, Debug, Hash)]
pub struct Card {
    /// Face value: `0` is a two, `12` is an ace.
    pub value: u8,
    /// Suit: `0` spade, `1` club, `2` heart, `3` diamond.
    pub suit: u8,
}

/// An unordered two-card holding, stored as the pair of its cards.
#[derive(Clone, Copy, PartialEq, Eq, Structural, Debug)]
pub struct Combo {
    /// One hole card.
    pub first: Card,
    /// The other hole card.
    pub second: Card,
}

/// A card is well formed when its value and suit lie in the 13 x 4 universe.
pub open spec fn card_ok(c: Card) -> bool {
    c.value < 13 && c.suit < 4
}

/// Distinct well-formed cards occupy distinct slots `value * 4 + suit` in `0..52`.
pub open spec fn card_index(c: Card) -> int {
    c.value * 4 + c.suit
}

/// A combo is well formed when both cards are well formed and distinct.
pub open spec fn combo_ok(h: Combo) -> bool {
    card_ok(h.first) && card_ok(h.second) && h.first != h.second
}

/// The set of cards a combo occupies.
pub open spec fn combo_cards(h: Combo) -> Set<Card> {
    set![h.first, h.second]
}

/// All cards of a sequence of combos.
pub open spec fn combos_cards(hs: Seq<Combo>) -> Set<Card>
    decreases hs.len(),
{
    if hs.len() == 0 {
        Set::empty()
    } else {
        combos_cards(hs.drop_last()).union(combo_cards(hs.last()))
    }
}

/// Card slot `value * 4 + suit`, the executable twin of [`card_index`].
pub fn card_slot(c: Card) -> (i: usize)
    requires
        card_ok(c),
    ensures
        i == card_index(c),
        i < 52,
{
    (c.value as usize) * 4 + (c.suit as usize)
}

/// Two well-formed cards with equal slots are the same card.
pub proof fn lemma_card_index_injective(a: Card, b: Card)
    requires
        card_ok(a),
        card_ok(b),
        card_index(a) == card_index(b),
    ensures
        a == b,
{
    assert(a.value == b.value && a.suit == b.suit) by (nonlinear_arith)
        requires
            a.value < 13 && a.suit < 4 && b.value < 13 && b.suit < 4,
            a.value * 4 + a.suit == b.value * 4 + b.suit,
    ;
}

/// A set of marked cards, backed by one flag per card slot.
///
/// This is the `used` set of the enumerators and the samplers: cards held by
/// the board or already dealt to a player are marked, and a candidate holding
/// is admissible only when both of its cards are unmarked.
pub struct CardMarks {
    flags: Vec<bool>,
}

impl CardMarks {
    /// The set of marked cards.
    pub closed spec fn view(&self) -> Set<Card> {
        Set::new(|c: Card| card_ok(c) && self.flags@[card_index(c)])
    }

    /// The backing store always holds one flag per card slot.
    pub closed spec fn wf(&self) -> bool {
        self.flags@.len() == 52
    }

    /// A marks set with nothing marked.
    pub fn new() -> (r: CardMarks)
        ensures
            r.wf(),
            r@ == Set::<Card>::empty(),
    {
        let mut flags: Vec<bool> = Vec::new();
        let mut i: usize = 0;
        while i < 52
            invariant
                i <= 52,
                flags@.len() == i,
                forall|j: int| 0 <= j < i ==> !flags@[j],
            decreases 52 - i,
        {
            flags.push(false);
            i = i + 1;
        }
        let r = CardMarks { flags };
        proof {
            assert(r@ =~= Set::<Card>::empty());
        }
        r
    }

    /// Whether `c` is marked.
    pub fn contains(&self, c: Card) -> (r: bool)
        requires
            self.wf(),
            card_ok(c),
        ensures
            r == self@.contains(c),
    {
        let i = card_slot(c);
        let r = self.flags[i];
        proof {
            if r {
                assert(self@.contains(c));
            } else {
                assert(!self@.contains(c));
            }
        }
        r
    }

    /// Mark `c`.
    pub fn insert(&mut self, c: Card)
        requires
            old(self).wf(),
            card_ok(c),
        ensures
            final(self).wf(),
            final(self)@ == old(self)@.insert(c),
    {
        let i = card_slot(c);
        self.flags.set(i, true);
        proof {
            assert forall|d: Card| self@.contains(d) <==> old(self)@.insert(c).contains(d) by {
                if card_ok(d) && card_index(d) == card_index(c) {
                    lemma_card_index_injective(c, d);
                }
            }
            assert(self@ =~= old(self)@.insert(c));
        }
    }

    /// Unmark `c`.
    pub fn remove(&mut self, c: Card)
        requires
            old(self).wf(),
            card_ok(c),
        ensures
            final(self).wf(),
            final(self)@ == old(self)@.remove(c),
    {
        let i = card_slot(c);
        self.flags.set(i, false);
        proof {
            assert forall|d: Card| self@.contains(d) <==> old(self)@.remove(c).contains(d) by {
                if card_ok(d) && card_index(d) == card_index(c) {
                    lemma_card_index_injective(c, d);
                }
            }
            assert(self@ =~= old(self)@.remove(c));
        }
    }

    /// An independent copy of the marks.
    pub fn duplicate(&self) -> (r: CardMarks)
        requires
            self.wf(),
        ensures
            r.wf(),
            r@ == self@,
    {
        let mut flags: Vec<bool> = Vec::new();
        let mut i: usize = 0;
        while i < 52
            invariant
                i <= 52,
                self.wf(),
                flags@.len() == i,
                forall|j: int| 0 <= j < i ==> flags@[j] == self.flags@[j],
            decreases 52 - i,
        {
            flags.push(self.flags[i]);
            i = i + 1;
        }
        let r = CardMarks { flags };
        proof {
            assert(r@ =~= self@);
        }
        r
    }

    /// Mark every card of the sequence.
    pub fn insert_all(&mut self, cards: &Vec<Card>)
        requires
            old(self).wf(),
            forall|i: int| 0 <= i < cards@.len() ==> card_ok(#[trigger] cards@[i]),
        ensures
            final(self).wf(),
            final(self)@ == old(self)@.union(cards@.to_set()),
    {
        let n = cards.len();
        let mut i: usize = 0;
        while i < n
            invariant
                i <= n,
                n == cards@.len(),
                self.wf(),
                forall|j: int| 0 <= j < cards@.len() ==> card_ok(#[trigger] cards@[j]),
                self@ == old(self)@.union(cards@.take(i as int).to_set()),
            decreases n - i,
        {
            proof {
                cards@.take(i as int).lemma_push_to_set_commute(cards@[i as int]);
                assert(cards@.take(i + 1) =~= cards@.take(i as int).push(cards@[i as int]));
            }
            self.insert(cards[i]);
            proof {
                assert(self@ =~= old(self)@.union(cards@.take(i + 1).to_set()));
            }
            i = i + 1;
        }
        proof {
            assert(cards@.take(n as int) =~= cards@);
        }
    }
}

} // verus!
