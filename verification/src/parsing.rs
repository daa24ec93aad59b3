//! Parsing of card tokens, card lists, and simple range descriptors.
//!
//! A card token is `<value><suit>`: one of `A K Q J T 9 8 7 6 5 4 3 2`
//! (either case) followed by one of `s h d c` (lower case). Card lists may
//! be concatenated (`"AhKs"`), space-separated, or comma-separated.

use vstd::prelude::*;
use crate::card::{Card, card_ok};
use crate::types::SnapError;

verus! {

/// Separator characters in card lists: ASCII whitespace and the comma.
pub open spec fn is_sep(c: char) -> bool {
    c == ' ' || c == '\t' || c == '\n' || c == '\r' || c == ','
}

/// The card value encoded by a character, if any. Values are
/// case-insensitive.
pub open spec fn value_of_char(c: char) -> Option<u8> {
    if c == 'A' || c == 'a' {
        Some(12u8)
    } else if c == 'K' || c == 'k' {
        Some(11u8)
    } else if c == 'Q' || c == 'q' {
        Some(10u8)
    } else if c == 'J' || c == 'j' {
        Some(9u8)
    } else if c == 'T' || c == 't' {
        Some(8u8)
    } else if c == '9' {
        Some(7u8)
    } else if c == '8' {
        Some(6u8)
    } else if c == '7' {
        Some(5u8)
    } else if c == '6' {
        Some(4u8)
    } else if c == '5' {
        Some(3u8)
    } else if c == '4' {
        Some(2u8)
    } else if c == '3' {
        Some(1u8)
    } else if c == '2' {
        Some(0u8)
    } else {
        None
    }
}

/// The suit encoded by a character, if any. Suits must be lower case.
pub open spec fn suit_of_char(c: char) -> Option<u8> {
    if c == 's' {
        Some(0u8)
    } else if c == 'c' {
        Some(1u8)
    } else if c == 'h' {
        Some(2u8)
    } else if c == 'd' {
        Some(3u8)
    } else {
        None
    }
}

/// The card encoded by a value character and a suit character, if any.
pub open spec fn card_of_chars(c0: char, c1: char) -> Option<Card> {
    match (value_of_char(c0), suit_of_char(c1)) {
        (Some(v), Some(s)) => Some(Card { value: v, suit: s }),
        _ => None,
    }
}

/// What [`parse_card`] accepts: exactly two characters, a value and a suit.
pub open spec fn parse_card_spec(s: Seq<char>) -> Option<Card> {
    if s.len() != 2 {
        None
    } else {
        card_of_chars(s[0], s[1])
    }
}

/// The predicate keeping non-separator characters.
pub open spec fn non_sep() -> spec_fn(char) -> bool {
    |c: char| !is_sep(c)
}

/// The input stripped of separators.
pub open spec fn cleaned_spec(s: Seq<char>) -> Seq<char> {
    s.filter(non_sep())
}

/// One more character of `s` taken into the separator filter.
proof fn lemma_cleaned_step(s: Seq<char>, i: int)
    requires
        0 <= i < s.len(),
    ensures
        s.take(i + 1).filter(non_sep()) == if !is_sep(s[i]) {
            s.take(i).filter(non_sep()).push(s[i])
        } else {
            s.take(i).filter(non_sep())
        },
{
    reveal_with_fuel(Seq::<_>::filter, 2);
    assert(s.take(i + 1).drop_last() =~= s.take(i));
    assert(s.take(i + 1).last() == s[i]);
    assert(s.take(i + 1).len() > 0);
    assert(s.take(i + 1).filter(non_sep()) == if non_sep()(s.take(i + 1).last()) {
        s.take(i + 1).drop_last().filter(non_sep()).push(s.take(i + 1).last())
    } else {
        s.take(i + 1).drop_last().filter(non_sep())
    });
}

/// Parsing a separator-free character stream as consecutive two-character
/// card tokens. `None` when a token is malformed or one character is left.
pub open spec fn parse_chunks(cs: Seq<char>) -> Option<Seq<Card>>
    decreases cs.len(),
{
    if cs.len() == 0 {
        Some(Seq::empty())
    } else if cs.len() == 1 {
        None
    } else {
        match card_of_chars(cs[0], cs[1]) {
            None => None,
            Some(c) => match parse_chunks(cs.skip(2)) {
                None => None,
                Some(r) => Some(seq![c] + r),
            },
        }
    }
}

/// The index of the first separator of `s`, or `s.len()` if none.
pub open spec fn first_sep_index(s: Seq<char>) -> int
    decreases s.len(),
{
    if s.len() == 0 {
        0
    } else if is_sep(s[0]) {
        0
    } else {
        1 + first_sep_index(s.drop_first())
    }
}

/// The first separator index lies between 1 and the length when the stream
/// starts with a token character.
pub proof fn lemma_first_sep_bounds(s: Seq<char>)
    ensures
        0 <= first_sep_index(s) <= s.len(),
        s.len() > 0 && !is_sep(s[0]) ==> 1 <= first_sep_index(s),
    decreases s.len(),
{
    if s.len() > 0 && !is_sep(s[0]) {
        lemma_first_sep_bounds(s.drop_first());
    }
}

/// The maximal separator-free tokens of `s`, in order.
pub open spec fn tokens_of(s: Seq<char>) -> Seq<Seq<char>>
    decreases s.len(),
    via tokens_of_decreases
{
    if s.len() == 0 {
        Seq::empty()
    } else if is_sep(s[0]) {
        tokens_of(s.drop_first())
    } else {
        seq![s.take(first_sep_index(s))] + tokens_of(s.skip(first_sep_index(s)))
    }
}

#[via_fn]
proof fn tokens_of_decreases(s: Seq<char>) {
    if s.len() > 0 && !is_sep(s[0]) {
        lemma_first_sep_bounds(s);
    }
}

/// Parsing each token as one card, stopping at the first failure.
pub open spec fn parse_tokens(ts: Seq<Seq<char>>) -> Option<Seq<Card>>
    decreases ts.len(),
{
    if ts.len() == 0 {
        Some(Seq::empty())
    } else {
        match parse_card_spec(ts[0]) {
            None => None,
            Some(c) => match parse_tokens(ts.drop_first()) {
                None => None,
                Some(r) => Some(seq![c] + r),
            },
        }
    }
}

/// The first token that fails to parse, when one does.
pub open spec fn first_bad_token(ts: Seq<Seq<char>>) -> Seq<char>
    decreases ts.len(),
{
    if ts.len() == 0 {
        Seq::empty()
    } else if parse_card_spec(ts[0]) is None {
        ts[0]
    } else {
        first_bad_token(ts.drop_first())
    }
}

/// What [`parse_cards`] returns. The concatenated two-character reading of
/// the separator-stripped input wins when it works; otherwise the input is
/// split at separators and each token read as one card.
pub open spec fn parse_cards_ok(s: Seq<char>) -> bool {
    let cl = cleaned_spec(s);
    cl.len() > 0 && (chunks_apply(s) || parse_tokens(tokens_of(s)) is Some)
}

/// Whether the concatenated reading applies to `s`.
pub open spec fn chunks_apply(s: Seq<char>) -> bool {
    let cl = cleaned_spec(s);
    cl.len() % 2 == 0 && parse_chunks(cl) is Some
}

/// The cards [`parse_cards`] returns on success.
pub open spec fn parse_cards_val(s: Seq<char>) -> Seq<Card> {
    if chunks_apply(s) {
        parse_chunks(cleaned_spec(s))->Some_0
    } else {
        parse_tokens(tokens_of(s))->Some_0
    }
}

/// All cards returned by a successful parse are well formed.
pub proof fn lemma_parse_chunks_ok(cs: Seq<char>)
    ensures
        parse_chunks(cs) is Some ==> forall|i: int|
            0 <= i < parse_chunks(cs)->Some_0.len() ==> card_ok(
                #[trigger] parse_chunks(cs)->Some_0[i],
            ),
    decreases cs.len(),
{
    if cs.len() >= 2 {
        lemma_parse_chunks_ok(cs.skip(2));
    }
}

/// All cards returned by a successful token parse are well formed.
pub proof fn lemma_parse_tokens_ok(ts: Seq<Seq<char>>)
    ensures
        parse_tokens(ts) is Some ==> forall|i: int|
            0 <= i < parse_tokens(ts)->Some_0.len() ==> card_ok(
                #[trigger] parse_tokens(ts)->Some_0[i],
            ),
    decreases ts.len(),
{
    if ts.len() > 0 {
        lemma_parse_tokens_ok(ts.drop_first());
    }
}

/// Reading one token off the front of the token list.
proof fn lemma_parse_tokens_cons(tok: Seq<char>, rest: Seq<Seq<char>>)
    ensures
        parse_card_spec(tok) is None ==> parse_tokens(seq![tok] + rest) is None
            && first_bad_token(seq![tok] + rest) == tok,
        parse_card_spec(tok) is Some ==> match parse_tokens(rest) {
            Some(r) => parse_tokens(seq![tok] + rest) == Some(
                seq![parse_card_spec(tok)->Some_0] + r,
            ),
            None => parse_tokens(seq![tok] + rest) is None && first_bad_token(seq![tok] + rest)
                == first_bad_token(rest),
        },
{
    let ts = seq![tok] + rest;
    assert(ts.len() > 0);
    assert(ts[0] == tok);
    assert(ts.drop_first() =~= rest);
}

/// All cards of a successful parse are well formed.
pub proof fn lemma_parse_cards_val_ok(s: Seq<char>)
    ensures
        parse_cards_ok(s) ==> forall|i: int|
            0 <= i < parse_cards_val(s).len() ==> card_ok(#[trigger] parse_cards_val(s)[i]),
{
    if parse_cards_ok(s) {
        if chunks_apply(s) {
            lemma_parse_chunks_ok(cleaned_spec(s));
        } else {
            lemma_parse_tokens_ok(tokens_of(s));
        }
    }
}

/// The characters of `s`, collected into a vector.
pub(crate) fn chars_of(s: &str) -> (v: Vec<char>)
    ensures
        v@ == s@,
{
    let n = s.unicode_len();
    let mut v: Vec<char> = Vec::new();
    let mut i: usize = 0;
    while i < n
        invariant
            i <= n,
            n == s@.len(),
            v@ == s@.take(i as int),
        decreases n - i,
    {
        v.push(s.get_char(i));
        proof {
            assert(s@.take(i + 1) =~= s@.take(i as int).push(s@[i as int]));
        }
        i = i + 1;
    }
    proof {
        assert(s@.take(n as int) =~= s@);
    }
    v
}

/// Whether `c` separates card tokens.
fn sep_char(c: char) -> (r: bool)
    ensures
        r == is_sep(c),
{
    c == ' ' || c == '\t' || c == '\n' || c == '\r' || c == ','
}

/// The card encoded by two characters, executable twin of [`card_of_chars`].
fn card_from_chars(c0: char, c1: char) -> (r: Option<Card>)
    ensures
        r == card_of_chars(c0, c1),
{
    let v: u8 = if c0 == 'A' || c0 == 'a' {
        12
    } else if c0 == 'K' || c0 == 'k' {
        11
    } else if c0 == 'Q' || c0 == 'q' {
        10
    } else if c0 == 'J' || c0 == 'j' {
        9
    } else if c0 == 'T' || c0 == 't' {
        8
    } else if c0 == '9' {
        7
    } else if c0 == '8' {
        6
    } else if c0 == '7' {
        5
    } else if c0 == '6' {
        4
    } else if c0 == '5' {
        3
    } else if c0 == '4' {
        2
    } else if c0 == '3' {
        1
    } else if c0 == '2' {
        0
    } else {
        13
    };
    let s: u8 = if c1 == 's' {
        0
    } else if c1 == 'c' {
        1
    } else if c1 == 'h' {
        2
    } else if c1 == 'd' {
        3
    } else {
        4
    };
    if v < 13 && s < 4 {
        Some(Card { value: v, suit: s })
    } else {
        None
    }
}

/// Parses one card from a two-character string: the value character, then
/// the suit character. Fails with `InvalidCard` carrying the input.
pub fn parse_card(s: &str) -> (r: Result<Card, SnapError>)
    ensures
        match r {
            Ok(c) => parse_card_spec(s@) == Some(c),
            Err(e) => {
                &&& parse_card_spec(s@) is None
                &&& e matches SnapError::InvalidCard(m) && m@ == s@
            },
        },
{
    let n = s.unicode_len();
    if n != 2 {
        return Err(SnapError::InvalidCard(s.to_owned()));
    }
    match card_from_chars(s.get_char(0), s.get_char(1)) {
        Some(c) => Ok(c),
        None => Err(SnapError::InvalidCard(s.to_owned())),
    }
}

/// Parses multiple cards from a single string.
///
/// Accepted layouts: concatenated (`"AhKsQd"`), space-separated, or
/// comma-separated. An input with no card characters at all fails.
pub fn parse_cards(s: &str) -> (r: Result<Vec<Card>, SnapError>)
    ensures
        match r {
            Ok(cards) => parse_cards_ok(s@) && cards@ == parse_cards_val(s@),
            Err(e) => {
                &&& !parse_cards_ok(s@)
                &&& e matches SnapError::InvalidCard(m) && (m@ == "Empty card string"@ || m@
                    == first_bad_token(tokens_of(s@)))
            },
        },
{
    let cs = chars_of(s);
    let n = cs.len();

    // Strip separators.
    let mut cleaned: Vec<char> = Vec::new();
    let mut i: usize = 0;
    while i < n
        invariant
            i <= n,
            n == cs@.len(),
            cs@ == s@,
            cleaned@ == cs@.take(i as int).filter(non_sep()),
        decreases n - i,
    {
        let c = cs[i];
        proof {
            lemma_cleaned_step(cs@, i as int);
        }
        if !sep_char(c) {
            cleaned.push(c);
        }
        i = i + 1;
    }
    proof {
        assert(cs@.take(n as int) =~= cs@);
    }

    if cleaned.len() == 0 {
        return Err(SnapError::InvalidCard(String::from_str("Empty card string")));
    }

    // Concatenated two-character reading.
    if cleaned.len() % 2 == 0 {
        let ghost cl = cleaned@;
        let m = cleaned.len();
        let mut cards: Vec<Card> = Vec::new();
        let mut ok = true;
        let mut j: usize = 0;
        proof {
            assert(cl.skip(0) =~= cl);
            if parse_chunks(cl) is Some {
                assert(Seq::<Card>::empty() + parse_chunks(cl)->Some_0 =~= parse_chunks(
                    cl,
                )->Some_0);
            }
        }
        while j < m / 2 && ok
            invariant
                j <= m / 2,
                m == cl.len(),
                m % 2 == 0,
                cleaned@ == cl,
                ok ==> match parse_chunks(cl.skip(2 * j)) {
                    Some(rest) => parse_chunks(cl) == Some(cards@ + rest),
                    None => parse_chunks(cl) is None,
                },
                !ok ==> parse_chunks(cl) is None,
            decreases m / 2 - j,
        {
            proof {
                assert(cl.skip(2 * j).len() == m - 2 * j >= 2);
                assert(cl.skip(2 * j).skip(2) =~= cl.skip(2 * j + 2));
                assert(cl.skip(2 * j)[0] == cl[2 * j]);
                assert(cl.skip(2 * j)[1] == cl[2 * j + 1]);
            }
            match card_from_chars(cleaned[2 * j], cleaned[2 * j + 1]) {
                Some(c) => {
                    let ghost old_cards = cards@;
                    cards.push(c);
                    proof {
                        if parse_chunks(cl.skip(2 * j + 2)) is Some {
                            let rest = parse_chunks(cl.skip(2 * j + 2))->Some_0;
                            assert(old_cards + (seq![c] + rest) =~= cards@ + rest);
                        }
                    }
                },
                None => {
                    ok = false;
                },
            }
            j = j + 1;
        }
        if ok {
            proof {
                assert(cl.skip(2 * (m / 2)) =~= Seq::<char>::empty());
                assert(cards@ + Seq::<Card>::empty() =~= cards@);
            }
            return Ok(cards);
        }
    }

    parse_cards_fallback(s, &cs)
}

/// The first separator of `t` stands at `m`.
proof fn lemma_first_sep_at(t: Seq<char>, m: int)
    requires
        0 <= m <= t.len(),
        forall|j: int| 0 <= j < m ==> !is_sep(#[trigger] t[j]),
        m == t.len() || is_sep(t[m]),
    ensures
        first_sep_index(t) == m,
    decreases m,
{
    if m == 0 {
    } else {
        lemma_first_sep_at(t.drop_first(), m - 1);
    }
}

/// Splitting off one full token from the front of the stream.
proof fn lemma_tokens_head(t: Seq<char>, m: int)
    requires
        0 < m <= t.len(),
        forall|j: int| 0 <= j < m ==> !is_sep(#[trigger] t[j]),
        m == t.len() || is_sep(t[m]),
    ensures
        tokens_of(t) == seq![t.take(m)] + tokens_of(t.skip(m)),
{
    lemma_first_sep_at(t, m);
}

/// Token-at-a-time reading of `s`, used when the concatenated reading does
/// not apply.
fn parse_cards_fallback(s: &str, cs: &Vec<char>) -> (r: Result<Vec<Card>, SnapError>)
    requires
        cs@ == s@,
    ensures
        match r {
            Ok(cards) => parse_tokens(tokens_of(s@)) == Some(cards@),
            Err(e) => {
                &&& parse_tokens(tokens_of(s@)) is None
                &&& e matches SnapError::InvalidCard(m) && m@ == first_bad_token(tokens_of(s@))
            },
        },
{
    let n = cs.len();
    let mut out: Vec<Card> = Vec::new();
    let mut i: usize = 0;
    proof {
        assert(s@.skip(0) =~= s@);
        if parse_tokens(tokens_of(s@)) is Some {
            assert(Seq::<Card>::empty() + parse_tokens(tokens_of(s@))->Some_0 =~= parse_tokens(
                tokens_of(s@),
            )->Some_0);
        }
    }
    while i < n
        invariant
            i <= n,
            n == cs@.len(),
            cs@ == s@,
            match parse_tokens(tokens_of(s@.skip(i as int))) {
                Some(rest) => parse_tokens(tokens_of(s@)) == Some(out@ + rest),
                None => parse_tokens(tokens_of(s@)) is None && first_bad_token(tokens_of(s@))
                    == first_bad_token(tokens_of(s@.skip(i as int))),
            },
        decreases n - i,
    {
        if sep_char(cs[i]) {
            proof {
                let t = s@.skip(i as int);
                assert(t.len() > 0 && is_sep(t[0]));
                assert(t.drop_first() =~= s@.skip(i + 1));
                assert(tokens_of(t) == tokens_of(t.drop_first()));
            }
            i = i + 1;
        } else {
            let start = i;
            let mut stop = i + 1;
            while stop < n && !sep_char(cs[stop])
                invariant
                    start < stop <= n,
                    n == cs@.len(),
                    cs@ == s@,
                    forall|j: int| start <= j < stop ==> !is_sep(#[trigger] s@[j]),
                    !is_sep(s@[start as int]),
                decreases n - stop,
            {
                stop = stop + 1;
            }
            let ghost t = s@.skip(start as int);
            let ghost tok = s@.subrange(start as int, stop as int);
            proof {
                assert(forall|j: int|
                    0 <= j < stop - start ==> !is_sep(#[trigger] t[j]) && t[j] == s@[start + j]);
                assert(stop - start == t.len() || is_sep(t[(stop - start) as int]));
                lemma_tokens_head(t, stop - start);
                assert(t.skip(stop - start) =~= s@.skip(stop as int));
                assert(t.take(stop - start) =~= tok);
                lemma_parse_tokens_cons(tok, tokens_of(s@.skip(stop as int)));
            }
            // Read the token as one card: it must be exactly two characters.
            let bad: bool = if stop - start != 2 {
                true
            } else {
                match card_from_chars(cs[start], cs[start + 1]) {
                    Some(c) => {
                        let ghost old_out = out@;
                        out.push(c);
                        proof {
                            assert(tok.len() >= 2 && tok[0] == s@[start as int] && tok[1] == s@[start + 1]);
                            if parse_tokens(tokens_of(s@.skip(stop as int))) is Some {
                                let rest = parse_tokens(tokens_of(s@.skip(stop as int)))->Some_0;
                                assert(old_out + (seq![c] + rest) =~= out@ + rest);
                            }
                        }
                        false
                    },
                    None => true,
                }
            };
            if bad {
                proof {
                    assert(parse_card_spec(tok) is None);
                    assert(first_bad_token(tokens_of(t)) == tok);
                }
                let token = s.substring_char(start, stop);
                return Err(SnapError::InvalidCard(token.to_owned()));
            }
            i = stop;
        }
    }
    proof {
        assert(s@.skip(n as int) =~= Seq::<char>::empty());
        assert(out@ + Seq::<Card>::empty() =~= out@);
    }
    Ok(out)
}

/// What [`parse_range`] returns on success: the two value characters and the
/// optional suitedness flag of a compact range token.
pub open spec fn parse_range_spec(s: Seq<char>) -> Option<(u8, u8, bool)> {
    if s.len() < 2 {
        None
    } else {
        match (value_of_char(s[0]), value_of_char(s[1])) {
            (Some(v1), Some(v2)) => if s.len() == 2 {
                Some((v1, v2, false))
            } else if s[2] == 's' || s[2] == 'S' {
                Some((v1, v2, true))
            } else if s[2] == 'o' || s[2] == 'O' {
                Some((v1, v2, false))
            } else {
                None
            },
            _ => None,
        }
    }
}

/// Parses a simplified two-rank range descriptor such as `"AKs"` or `"AKo"`,
/// returning one `(high value, low value, suited)` triple.
pub fn parse_range(range_str: &str) -> (r: Result<Vec<(u8, u8, bool)>, SnapError>)
    ensures
        match r {
            Ok(v) => parse_range_spec(range_str@) is Some && v@ == seq![
                parse_range_spec(range_str@)->Some_0,
            ],
            Err(e) => {
                &&& parse_range_spec(range_str@) is None
                &&& e matches SnapError::InvalidRange(m) && m@ == range_str@
            },
        },
{
    let n = range_str.unicode_len();
    if n < 2 {
        return Err(SnapError::InvalidRange(range_str.to_owned()));
    }
    let v1 = match card_value_from_char(range_str.get_char(0)) {
        Some(v) => v,
        None => {
            return Err(SnapError::InvalidRange(range_str.to_owned()));
        },
    };
    let v2 = match card_value_from_char(range_str.get_char(1)) {
        Some(v) => v,
        None => {
            return Err(SnapError::InvalidRange(range_str.to_owned()));
        },
    };
    let suited = if n > 2 {
        let c = range_str.get_char(2);
        if c == 's' || c == 'S' {
            true
        } else if c == 'o' || c == 'O' {
            false
        } else {
            return Err(SnapError::InvalidRange(range_str.to_owned()));
        }
    } else {
        false
    };
    let mut v: Vec<(u8, u8, bool)> = Vec::new();
    v.push((v1, v2, suited));
    Ok(v)
}

/// The value character reading alone, executable twin of [`value_of_char`].
fn card_value_from_char(c: char) -> (r: Option<u8>)
    ensures
        r == value_of_char(c),
{
    if c == 'A' || c == 'a' {
        Some(12)
    } else if c == 'K' || c == 'k' {
        Some(11)
    } else if c == 'Q' || c == 'q' {
        Some(10)
    } else if c == 'J' || c == 'j' {
        Some(9)
    } else if c == 'T' || c == 't' {
        Some(8)
    } else if c == '9' {
        Some(7)
    } else if c == '8' {
        Some(6)
    } else if c == '7' {
        Some(5)
    } else if c == '6' {
        Some(4)
    } else if c == '5' {
        Some(3)
    } else if c == '4' {
        Some(2)
    } else if c == '3' {
        Some(1)
    } else if c == '2' {
        Some(0)
    } else {
        None
    }
}

/// Strips whitespace and commas from a card string
/// (e.g. `"Ah, Kd"` becomes `"AhKd"`).
pub fn normalize_cards_str(s: &str) -> (r: String)
    ensures
        r@ == cleaned_spec(s@),
{
    let cs = chars_of(s);
    let n = cs.len();
    let mut out = String::new();
    let mut i: usize = 0;
    while i < n
        invariant
            i <= n,
            n == cs@.len(),
            cs@ == s@,
            out@ == cs@.take(i as int).filter(non_sep()),
        decreases n - i,
    {
        let c = cs[i];
        proof {
            lemma_cleaned_step(cs@, i as int);
        }
        if !sep_char(c) {
            crate::strutil::push_char(&mut out, c);
        }
        i = i + 1;
    }
    proof {
        assert(cs@.take(n as int) =~= cs@);
    }
    out
}

} // verus!
