//! Normalized player and board inputs.
//!
//! A player descriptor is empty (both hole cards unknown), one card token,
//! two card tokens, or a range expression; a board is 0, 3, 4, or 5 card
//! tokens. The range grammar itself is delegated to rs_poker's parser; the
//! solver only requires its output to be a set of two-card holdings.

use vstd::prelude::*;
use crate::card::{Card, Combo, card_ok, combo_ok};
use crate::types::SnapError;
use crate::parsing::{parse_cards, parse_cards_ok, parse_cards_val, cleaned_spec};
use crate::strutil::append_u64;
use crate::combinatorics::seqs_of;

verus! {

/// Hero or villain hole-cards input.
///
/// - `""` parses to `Unknown` (random hand)
/// - `"Ah"` to `Partial` (one known card, second dealt randomly)
/// - `"AhKd"` to `Exact` (both cards known)
/// - `"TT+"` or `"AKs"` to `Range`
#[derive(Clone, Debug)]
pub enum HoleCardsInput {
    Exact(Combo),
    Range(Vec<Combo>),
    Partial(Card),
    Unknown,
}

/// Board (community cards) input.
///
/// - `""` parses to `PreFlop`
/// - 3 cards to `Flop`, 4 to `Turn`, 5 to `River`
#[derive(Clone, Debug)]
pub enum BoardCardsInput {
    PreFlop,
    Flop(Vec<Card>),
    Turn(Vec<Card>),
    River(Vec<Card>),
}

impl BoardCardsInput {
    /// The board cards carried by this input.
    pub fn cards(&self) -> (r: Vec<Card>)
        ensures
            r@ == self.cards_spec(),
    {
        match self {
            BoardCardsInput::PreFlop => Vec::new(),
            BoardCardsInput::Flop(cards) => crate::combinatorics::copy_cards(cards),
            BoardCardsInput::Turn(cards) => crate::combinatorics::copy_cards(cards),
            BoardCardsInput::River(cards) => crate::combinatorics::copy_cards(cards),
        }
    }

    /// The cards of this board input.
    pub open spec fn cards_spec(&self) -> Seq<Card> {
        match self {
            BoardCardsInput::PreFlop => Seq::empty(),
            BoardCardsInput::Flop(cards) => cards@,
            BoardCardsInput::Turn(cards) => cards@,
            BoardCardsInput::River(cards) => cards@,
        }
    }
}

/// Whitespace for trimming purposes.
pub open spec fn is_space(c: char) -> bool {
    c == ' ' || c == '\t' || c == '\n' || c == '\r'
}

/// `s` without leading whitespace.
pub open spec fn trim_front(s: Seq<char>) -> Seq<char>
    decreases s.len(),
{
    if s.len() > 0 && is_space(s[0]) {
        trim_front(s.drop_first())
    } else {
        s
    }
}

/// `s` without trailing whitespace.
pub open spec fn trim_back(s: Seq<char>) -> Seq<char>
    decreases s.len(),
{
    if s.len() > 0 && is_space(s.last()) {
        trim_back(s.drop_last())
    } else {
        s
    }
}

/// `s` without leading and trailing whitespace.
pub open spec fn trimmed(s: Seq<char>) -> Seq<char> {
    trim_back(trim_front(s))
}

/// The front trim is the suffix that starts at the first non-space.
proof fn lemma_trim_front_at(s: Seq<char>, a: int)
    requires
        0 <= a <= s.len(),
        forall|j: int| 0 <= j < a ==> is_space(#[trigger] s[j]),
        a == s.len() || !is_space(s[a]),
    ensures
        trim_front(s) == s.skip(a),
    decreases a,
{
    if a == 0 {
        assert(s.skip(0) =~= s);
    } else {
        lemma_trim_front_at(s.drop_first(), a - 1);
        assert(s.drop_first().skip(a - 1) =~= s.skip(a));
    }
}

/// The back trim is the prefix that ends after the last non-space.
proof fn lemma_trim_back_at(s: Seq<char>, b: int)
    requires
        0 <= b <= s.len(),
        forall|j: int| b <= j < s.len() ==> is_space(#[trigger] s[j]),
        b == 0 || !is_space(s[b - 1]),
    ensures
        trim_back(s) == s.take(b),
    decreases s.len(),
{
    if b == s.len() {
        assert(s.take(b) =~= s);
    } else {
        lemma_trim_back_at(s.drop_last(), b);
        assert(s.drop_last().take(b) =~= s.take(b));
    }
}

/// Returns the slice of `s` with surrounding whitespace removed.
fn trim_str<'a>(s: &'a str, cs: &Vec<char>) -> (r: &'a str)
    requires
        cs@ == s@,
    ensures
        r@ == trimmed(s@),
{
    let n = cs.len();
    let mut a: usize = 0;
    while a < n && space_char(cs[a])
        invariant
            a <= n,
            n == cs@.len(),
            cs@ == s@,
            forall|j: int| 0 <= j < a ==> is_space(#[trigger] s@[j]),
        decreases n - a,
    {
        a = a + 1;
    }
    let mut b: usize = n;
    while b > a && space_char(cs[b - 1])
        invariant
            a <= b <= n,
            n == cs@.len(),
            cs@ == s@,
            forall|j: int| 0 <= j < a ==> is_space(#[trigger] s@[j]),
            a == n || !is_space(s@[a as int]),
            forall|j: int| b <= j < n ==> is_space(#[trigger] s@[j]),
        decreases b,
    {
        b = b - 1;
    }
    proof {
        lemma_trim_front_at(s@, a as int);
        if b == a {
            lemma_trim_back_at(s@.skip(a as int), 0);
        } else {
            lemma_trim_back_at(s@.skip(a as int), b - a);
        }
        assert(s@.skip(a as int).take(b - a) =~= s@.subrange(a as int, b as int));
    }
    s.substring_char(a, b)
}

/// Whether `c` is trimmed whitespace.
fn space_char(c: char) -> (r: bool)
    ensures
        r == is_space(c),
{
    c == ' ' || c == '\t' || c == '\n' || c == '\r'
}

/// What the black-box range parser expands an expression to: its set of
/// hole-card holdings, or nothing when the expression is malformed. The set
/// is a function of the expression alone; the order in which the holdings
/// come back is not, so no order is named.
pub uninterp spec fn range_expansion_of(s: Seq<char>) -> Option<Set<Seq<Card>>>;

/// Relies on rs_poker's `RangeParser::parse_many`: expands a Hold'em range
/// expression (`"TT+"`, `"AKs"`, `"A5s-A2s"`, comma-separated unions) into
/// two-card holdings with in-range values and suits, deduplicated through a
/// hash set, which leaves their order unspecified.
#[verifier::external_body]
fn expand_range(s: &str) -> (r: Result<Vec<Vec<Card>>, String>)
    ensures
        r is Ok <==> range_expansion_of(s@) is Some,
        r is Ok ==> seqs_of(r->Ok_0@).to_set() == range_expansion_of(s@)->Some_0,
        r is Ok ==> forall|i: int, j: int|
            0 <= i < r->Ok_0@.len() && 0 <= j < r->Ok_0@[i]@.len() ==> card_ok(
                #[trigger] r->Ok_0@[i]@[j],
            ),
{
    match rs_poker::holdem::RangeParser::parse_many(s) {
        Ok(hands) => Ok(
            hands
                .into_iter()
                .map(|h| h.iter().map(|c| Card { value: c.value as u8, suit: c.suit as u8 }).collect())
                .collect(),
        ),
        Err(e) => Err(format!("{:?}", e)),
    }
}

/// Whether `v` holds the holding `h`.
fn combo_in(v: &Vec<Combo>, h: Combo) -> (r: bool)
    ensures
        r == v@.contains(h),
{
    let n = v.len();
    let mut i: usize = 0;
    while i < n
        invariant
            i <= n,
            n == v@.len(),
            forall|j: int| 0 <= j < i ==> v@[j] != h,
        decreases n - i,
    {
        if v[i] == h {
            proof {
                assert(v@[i as int] == h);
            }
            return true;
        }
        i = i + 1;
    }
    false
}

/// Appending a fresh holding keeps a list duplicate-free.
proof fn lemma_push_combo_nodup(s: Seq<Combo>, x: Combo)
    requires
        s.no_duplicates(),
        !s.contains(x),
    ensures
        s.push(x).no_duplicates(),
{
    assert forall|a: int, b: int|
        0 <= a < s.push(x).len() && 0 <= b < s.push(x).len() && a != b implies s.push(x)[a]
        != s.push(x)[b] by {
        if a < s.len() && b < s.len() {
        } else if a < s.len() {
            assert(s.push(x)[a] == s[a]);
            assert(s.contains(s[a]));
        } else if b < s.len() {
            assert(s.push(x)[b] == s[b]);
            assert(s.contains(s[b]));
        }
    }
}

/// Whether `v` holds `c`.
pub(crate) fn cards_contain(v: &Vec<Card>, c: Card) -> (r: bool)
    ensures
        r == v@.contains(c),
{
    let n = v.len();
    let mut i: usize = 0;
    while i < n
        invariant
            i <= n,
            n == v@.len(),
            forall|j: int| 0 <= j < i ==> v@[j] != c,
        decreases n - i,
    {
        if v[i].value == c.value && v[i].suit == c.suit {
            proof {
                assert(v@[i as int] == c);
            }
            return true;
        }
        i = i + 1;
    }
    false
}

/// Whether a holding from the expansion survives against this board: two
/// distinct cards, neither on the board.
pub open spec fn combo_admissible(h: Combo, board: Seq<Card>) -> bool {
    h.first != h.second && !board.contains(h.first) && !board.contains(h.second)
}

/// The holdings a parsed `Range` player carries: exactly the two-card
/// members of the expansion that do not collide with the board.
pub open spec fn range_matches(v: Seq<Combo>, expansion: Set<Seq<Card>>, board: Seq<Card>) -> bool {
    forall|h: Combo|
        #[trigger] v.contains(h) <==> expansion.contains(seq![h.first, h.second])
            && combo_admissible(h, board)
}

/// Whether a player descriptor is accepted against this board.
pub open spec fn player_input_ok(s: Seq<char>, board: Seq<Card>) -> bool {
    let t = trimmed(s);
    if t.len() == 0 {
        true
    } else if parse_cards_ok(t) {
        let cards = parse_cards_val(t);
        if cards.len() == 1 {
            !board.contains(cards[0])
        } else if cards.len() == 2 {
            cards[0] != cards[1] && !board.contains(cards[0]) && !board.contains(cards[1])
        } else {
            false
        }
    } else {
        match range_expansion_of(t) {
            None => false,
            Some(expansion) => exists|h: Combo|
                expansion.contains(#[trigger] seq![h.first, h.second]) && combo_admissible(
                    h,
                    board,
                ),
        }
    }
}

/// Parses one player descriptor against the board.
///
/// Empty means `Unknown`; one or two card tokens mean `Partial` or `Exact`,
/// rejected on duplicates or board conflicts; anything else is read as a
/// range expression, whose holdings are filtered against the board.
pub fn parse_player_hand_input(input: &str, board_cards: &Vec<Card>) -> (r: Result<
    HoleCardsInput,
    SnapError,
>)
    ensures
        r is Ok <==> player_input_ok(input@, board_cards@),
        match r {
            Ok(spec) => match spec {
                HoleCardsInput::Unknown => trimmed(input@).len() == 0,
                HoleCardsInput::Partial(c) => {
                    &&& trimmed(input@).len() > 0
                    &&& parse_cards_ok(trimmed(input@))
                    &&& parse_cards_val(trimmed(input@)) == seq![c]
                    &&& card_ok(c)
                    &&& !board_cards@.contains(c)
                },
                HoleCardsInput::Exact(h) => {
                    &&& trimmed(input@).len() > 0
                    &&& parse_cards_ok(trimmed(input@))
                    &&& parse_cards_val(trimmed(input@)) == seq![h.first, h.second]
                    &&& combo_ok(h)
                    &&& !board_cards@.contains(h.first)
                    &&& !board_cards@.contains(h.second)
                },
                HoleCardsInput::Range(v) => {
                    &&& trimmed(input@).len() > 0
                    &&& !parse_cards_ok(trimmed(input@))
                    &&& range_expansion_of(trimmed(input@)) is Some
                    &&& v@.len() > 0
                    &&& v@.no_duplicates()
                    &&& range_matches(
                        v@,
                        range_expansion_of(trimmed(input@))->Some_0,
                        board_cards@,
                    )
                    &&& forall|i: int| 0 <= i < v@.len() ==> combo_ok(#[trigger] v@[i])
                },
            },
            Err(e) => match e {
                SnapError::InvalidCard(_) => false,
                SnapError::InvalidHand(_) => parse_cards_ok(trimmed(input@)),
                SnapError::InvalidRange(_) => !parse_cards_ok(trimmed(input@)),
            },
        },
{
    let cs = crate::parsing::chars_of(input);
    let t = trim_str(input, &cs);
    if t.unicode_len() == 0 {
        return Ok(HoleCardsInput::Unknown);
    }
    match parse_cards(t) {
        Ok(cards) => {
            proof {
                crate::parsing::lemma_parse_cards_val_ok(t@);
            }
            if cards.len() == 1 {
                let c = cards[0];
                if cards_contain(board_cards, c) {
                    let mut m = String::from_str("Known card conflicts with board: ");
                    m.append(card_token(c).as_str());
                    return Err(SnapError::InvalidHand(m));
                }
                proof {
                    crate::parsing::lemma_parse_cards_val_ok(t@);
                    assert(parse_cards_val(t@) =~= seq![c]);
                }
                Ok(HoleCardsInput::Partial(c))
            } else if cards.len() == 2 {
                let c1 = cards[0];
                let c2 = cards[1];
                if c1.value == c2.value && c1.suit == c2.suit {
                    return Err(
                        SnapError::InvalidHand(
                            String::from_str("Player hand contains duplicate cards"),
                        ),
                    );
                }
                proof {
                    assert(c1 != c2);
                }
                if cards_contain(board_cards, c1) || cards_contain(board_cards, c2) {
                    let mut m = String::from_str("Player hand conflicts with board: ");
                    m.append(card_token(c1).as_str());
                    m.append(" ");
                    m.append(card_token(c2).as_str());
                    return Err(SnapError::InvalidHand(m));
                }
                proof {
                    crate::parsing::lemma_parse_cards_val_ok(t@);
                    assert(parse_cards_val(t@) =~= seq![c1, c2]);
                }
                Ok(HoleCardsInput::Exact(Combo { first: c1, second: c2 }))
            } else {
                let mut m = String::from_str("Player input '");
                m.append(t);
                m.append("' must be empty, 1 card, 2 cards, or a valid range");
                Err(SnapError::InvalidHand(m))
            }
        },
        Err(_) => {
            match expand_range(t) {
                Err(detail) => {
                    let mut m = String::from_str("Failed to parse range '");
                    m.append(t);
                    m.append("': ");
                    m.append(detail.as_str());
                    Err(SnapError::InvalidRange(m))
                },
                Ok(hands) => {
                    let ghost expansion = range_expansion_of(t@)->Some_0;
                    let mut kept: Vec<Combo> = Vec::new();
                    let n = hands.len();
                    let mut i: usize = 0;
                    while i < n
                        invariant
                            i <= n,
                            n == hands@.len(),
                            seqs_of(hands@).to_set() == expansion,
                            forall|a: int, b: int|
                                0 <= a < hands@.len() && 0 <= b < hands@[a]@.len() ==> card_ok(
                                    #[trigger] hands@[a]@[b],
                                ),
                            kept@.no_duplicates(),
                            forall|h: Combo| #[trigger]
                                kept@.contains(h) <==> (exists|j: int|
                                    0 <= j < i && #[trigger] seqs_of(hands@)[j] == seq![
                                        h.first,
                                        h.second,
                                    ]) && combo_admissible(h, board_cards@),
                            forall|k: int| 0 <= k < kept@.len() ==> combo_ok(#[trigger] kept@[k]),
                        decreases n - i,
                    {
                        let hand = &hands[i];
                        if hand.len() == 2 {
                            let c1 = hand[0];
                            let c2 = hand[1];
                            let distinct = !(c1.value == c2.value && c1.suit == c2.suit);
                            if distinct && !cards_contain(board_cards, c1) && !cards_contain(
                                board_cards,
                                c2,
                            ) {
                                let h = Combo { first: c1, second: c2 };
                                proof {
                                    assert(c1 != c2);
                                    assert(seqs_of(hands@)[i as int] =~= seq![h.first, h.second]);
                                }
                                if combo_in(&kept, h) {
                                    // The expansion repeated a holding; it is
                                    // already kept, so only the witness range
                                    // of the membership account grows.
                                    proof {
                                        assert forall|x: Combo|
                                            (exists|j: int|
                                                0 <= j < i + 1 && #[trigger] seqs_of(hands@)[j]
                                                    == seq![x.first, x.second])
                                                && combo_admissible(
                                                x,
                                                board_cards@,
                                            ) implies #[trigger] kept@.contains(x) by {
                                            let j = choose|j: int|
                                                0 <= j < i + 1 && #[trigger] seqs_of(hands@)[j]
                                                    == seq![x.first, x.second];
                                            if j == i {
                                                assert(x.first == h.first && x.second == h.second);
                                                assert(kept@.contains(h));
                                            }
                                        }
                                    }
                                    i = i + 1;
                                    continue ;
                                }
                                let ghost old_kept = kept@;
                                proof {
                                    lemma_push_combo_nodup(old_kept, h);
                                }
                                kept.push(h);
                                proof {
                                    assert forall|x: Combo| #[trigger] kept@.contains(x) implies ((
                                    exists|j: int|
                                        0 <= j < i + 1 && #[trigger] seqs_of(hands@)[j] == seq![
                                            x.first,
                                            x.second,
                                        ]) && combo_admissible(x, board_cards@)) by {
                                        if x == h {
                                            assert(seqs_of(hands@)[i as int] == seq![
                                                x.first,
                                                x.second,
                                            ]);
                                        } else {
                                            assert(old_kept.contains(x));
                                        }
                                    }
                                    assert forall|x: Combo|
                                        (exists|j: int|
                                            0 <= j < i + 1 && #[trigger] seqs_of(hands@)[j]
                                                == seq![x.first, x.second]) && combo_admissible(
                                            x,
                                            board_cards@,
                                        ) implies #[trigger] kept@.contains(x) by {
                                        let j = choose|j: int|
                                            0 <= j < i + 1 && #[trigger] seqs_of(hands@)[j]
                                                == seq![x.first, x.second];
                                        if j == i {
                                            assert(x.first == h.first && x.second == h.second);
                                            assert(kept@[kept@.len() - 1] == h);
                                        } else {
                                            assert(old_kept.contains(x));
                                            let k = choose|k: int|
                                                0 <= k < old_kept.len() && old_kept[k] == x;
                                            assert(kept@[k] == x);
                                        }
                                    }
                                }
                                i = i + 1;
                                continue ;
                            }
                        }
                        proof {
                            let hv = seqs_of(hands@)[i as int];
                            assert forall|x: Combo|
                                (exists|j: int|
                                    0 <= j < i + 1 && #[trigger] seqs_of(hands@)[j] == seq![
                                        x.first,
                                        x.second,
                                    ]) && combo_admissible(x, board_cards@) implies #[trigger]
                            kept@.contains(x) by {
                                let j = choose|j: int|
                                    0 <= j < i + 1 && #[trigger] seqs_of(hands@)[j] == seq![
                                        x.first,
                                        x.second,
                                    ];
                                if j == i {
                                    assert(hv == seq![x.first, x.second]);
                                    assert(hands@[i as int]@.len() == 2);
                                    assert(hands@[i as int]@[0] == x.first);
                                    assert(hands@[i as int]@[1] == x.second);
                                    assert(false);
                                }
                            }
                        }
                        i = i + 1;
                    }
                    if kept.len() == 0 {
                        let mut m = String::from_str("Range '");
                        m.append(t);
                        m.append("' produced no valid hands");
                        proof {
                            assert forall|h: Combo|
                                !(expansion.contains(#[trigger] seq![h.first, h.second])
                                    && combo_admissible(h, board_cards@)) by {
                                if expansion.contains(seq![h.first, h.second])
                                    && combo_admissible(h, board_cards@) {
                                    assert(seqs_of(hands@).to_set().contains(
                                        seq![h.first, h.second],
                                    ));
                                    let j = choose|j: int|
                                        0 <= j < seqs_of(hands@).len() && seqs_of(hands@)[j]
                                            == seq![h.first, h.second];
                                    assert(kept@.contains(h));
                                }
                            }
                        }
                        return Err(SnapError::InvalidRange(m));
                    }
                    proof {
                        assert forall|h: Combo| #[trigger]
                            kept@.contains(h) <==> expansion.contains(seq![h.first, h.second])
                                && combo_admissible(h, board_cards@) by {
                            if expansion.contains(seq![h.first, h.second]) && combo_admissible(
                                h,
                                board_cards@,
                            ) {
                                assert(seqs_of(hands@).to_set().contains(seq![h.first, h.second]));
                                let j = choose|j: int|
                                    0 <= j < seqs_of(hands@).len() && seqs_of(hands@)[j] == seq![
                                        h.first,
                                        h.second,
                                    ];
                            }
                            if kept@.contains(h) {
                                let j = choose|j: int|
                                    0 <= j < n && #[trigger] seqs_of(hands@)[j] == seq![
                                        h.first,
                                        h.second,
                                    ];
                                assert(seqs_of(hands@).to_set().contains(seq![h.first, h.second]));
                            }
                        }
                        assert(kept@.contains(kept@[0]));
                    }
                    Ok(HoleCardsInput::Range(kept))
                },
            }
        },
    }
}

/// The display character of a card value.
pub open spec fn char_of_value(v: u8) -> char {
    if v == 12 {
        'A'
    } else if v == 11 {
        'K'
    } else if v == 10 {
        'Q'
    } else if v == 9 {
        'J'
    } else if v == 8 {
        'T'
    } else if v == 7 {
        '9'
    } else if v == 6 {
        '8'
    } else if v == 5 {
        '7'
    } else if v == 4 {
        '6'
    } else if v == 3 {
        '5'
    } else if v == 2 {
        '4'
    } else if v == 1 {
        '3'
    } else {
        '2'
    }
}

/// The display character of a suit.
pub open spec fn char_of_suit(s: u8) -> char {
    if s == 0 {
        's'
    } else if s == 1 {
        'c'
    } else if s == 2 {
        'h'
    } else {
        'd'
    }
}

/// The two-character text of a card.
pub open spec fn card_text(c: Card) -> Seq<char> {
    seq![char_of_value(c.value), char_of_suit(c.suit)]
}

/// The two-character token of a card, such as `"Ah"`.
pub fn card_token(c: Card) -> (r: String)
    requires
        card_ok(c),
    ensures
        r@ == card_text(c),
{
    let mut m = String::new();
    let vc: char = if c.value == 12 {
        'A'
    } else if c.value == 11 {
        'K'
    } else if c.value == 10 {
        'Q'
    } else if c.value == 9 {
        'J'
    } else if c.value == 8 {
        'T'
    } else if c.value == 7 {
        '9'
    } else if c.value == 6 {
        '8'
    } else if c.value == 5 {
        '7'
    } else if c.value == 4 {
        '6'
    } else if c.value == 3 {
        '5'
    } else if c.value == 2 {
        '4'
    } else if c.value == 1 {
        '3'
    } else {
        '2'
    };
    let sc: char = if c.suit == 0 {
        's'
    } else if c.suit == 1 {
        'c'
    } else if c.suit == 2 {
        'h'
    } else {
        'd'
    };
    crate::strutil::push_char(&mut m, vc);
    crate::strutil::push_char(&mut m, sc);
    m
}

/// Whether a board descriptor is accepted.
pub open spec fn board_input_ok(s: Seq<char>) -> bool {
    let t = trimmed(s);
    if t.len() == 0 {
        true
    } else {
        parse_cards_ok(t) && {
            let cards = parse_cards_val(t);
            (cards.len() == 3 || cards.len() == 4 || cards.len() == 5) && cards.no_duplicates()
        }
    }
}

/// The board cards a descriptor stands for.
pub open spec fn board_input_val(s: Seq<char>) -> Seq<Card> {
    if trimmed(s).len() == 0 {
        Seq::empty()
    } else {
        parse_cards_val(trimmed(s))
    }
}

/// Parses and validates a Hold'em board string.
///
/// Accepts only 0, 3, 4, or 5 cards and rejects duplicate cards.
#[verifier::loop_isolation(false)]
pub fn parse_board_input(board: &str) -> (r: Result<Vec<Card>, SnapError>)
    ensures
        r is Ok <==> board_input_ok(board@),
        match r {
            Ok(cards) => {
                &&& cards@ == board_input_val(board@)
                &&& cards@.len() == 0 || cards@.len() == 3 || cards@.len() == 4 || cards@.len()
                    == 5
                &&& cards@.no_duplicates()
                &&& forall|i: int| 0 <= i < cards@.len() ==> card_ok(#[trigger] cards@[i])
            },
            Err(e) => e matches SnapError::InvalidCard(_) || e matches SnapError::InvalidHand(_),
        },
{
    let cs = crate::parsing::chars_of(board);
    let t = trim_str(board, &cs);
    if t.unicode_len() == 0 {
        return Ok(Vec::new());
    }
    let cards = match parse_cards(t) {
        Ok(cards) => cards,
        Err(e) => {
            return Err(e);
        },
    };
    let n = cards.len();
    if !(n == 3 || n == 4 || n == 5) {
        let mut m = String::from_str("Board must have 0, 3, 4, or 5 cards, got ");
        append_u64(&mut m, n as u64);
        return Err(SnapError::InvalidHand(m));
    }
    let mut i: usize = 0;
    while i < n
        invariant
            i <= n,
            n == cards@.len(),
            forall|a: int, b: int| 0 <= a < b < i ==> cards@[a] != cards@[b],
        decreases n - i,
    {
        let mut j: usize = 0;
        while j < i
            invariant
                j <= i < n,
                n == cards@.len(),
                forall|b: int| 0 <= b < j ==> cards@[b] != cards@[i as int],
            decreases i - j,
        {
            if cards[j].value == cards[i].value && cards[j].suit == cards[i].suit {
                proof {
                    assert(cards@[j as int] == cards@[i as int]);
                    assert(!cards@.no_duplicates());
                }
                return Err(
                    SnapError::InvalidHand(String::from_str("Duplicate board card detected")),
                );
            }
            proof {
                assert(cards@[j as int] != cards@[i as int]);
            }
            j = j + 1;
        }
        i = i + 1;
    }
    proof {
        crate::parsing::lemma_parse_cards_val_ok(t@);
        assert forall|a: int, b: int|
            0 <= a < cards@.len() && 0 <= b < cards@.len() && a != b implies cards@[a] != cards@[b]
        by {
            if a < b {
            } else {
                assert(cards@[b] != cards@[a]);
            }
        }
        assert(cards@.no_duplicates());
    }
    Ok(cards)
}

impl core::str::FromStr for HoleCardsInput {
    type Err = SnapError;

    fn from_str(s: &str) -> (r: Result<HoleCardsInput, SnapError>)
        ensures
            r is Ok <==> player_input_ok(s@, Seq::<Card>::empty()),
            r is Ok ==> match r->Ok_0 {
                HoleCardsInput::Unknown => trimmed(s@).len() == 0,
                HoleCardsInput::Partial(c) => parse_cards_val(trimmed(s@)) == seq![c],
                HoleCardsInput::Exact(h) => parse_cards_val(trimmed(s@)) == seq![
                    h.first,
                    h.second,
                ],
                HoleCardsInput::Range(v) => v@.len() > 0 && v@.no_duplicates() && range_matches(
                    v@,
                    range_expansion_of(trimmed(s@))->Some_0,
                    Seq::<Card>::empty(),
                ),
            },
    {
        let empty_board: Vec<Card> = Vec::new();
        proof {
            assert(empty_board@ =~= Seq::<Card>::empty());
        }
        parse_player_hand_input(s, &empty_board)
    }
}

impl core::str::FromStr for BoardCardsInput {
    type Err = SnapError;

    fn from_str(s: &str) -> (r: Result<BoardCardsInput, SnapError>)
        ensures
            r is Ok <==> board_input_ok(s@),
            r is Ok ==> r->Ok_0.cards_spec() == board_input_val(s@),
            r is Ok ==> match r->Ok_0 {
                BoardCardsInput::PreFlop => board_input_val(s@).len() == 0,
                BoardCardsInput::Flop(_) => board_input_val(s@).len() == 3,
                BoardCardsInput::Turn(_) => board_input_val(s@).len() == 4,
                BoardCardsInput::River(_) => board_input_val(s@).len() == 5,
            },
    {
        let cards = parse_board_input(s)?;
        if cards.len() == 0 {
            proof {
                assert(Seq::<Card>::empty() =~= board_input_val(s@));
            }
            Ok(BoardCardsInput::PreFlop)
        } else if cards.len() == 3 {
            Ok(BoardCardsInput::Flop(cards))
        } else if cards.len() == 4 {
            Ok(BoardCardsInput::Turn(cards))
        } else {
            Ok(BoardCardsInput::River(cards))
        }
    }
}

} // verus!
