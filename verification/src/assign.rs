//! Enumeration of valid per-player hand assignments.
//!
//! Every player is normalized to an ordered candidate list of two-card
//! holdings: an `Exact` player has one candidate, a `Range` player its
//! surviving holdings, a `Partial` player one candidate per possible second
//! card in deck order, an `Unknown` player every unordered pair in deck
//! order. A depth-first walk over the players then yields each assignment
//! that respects card uniqueness, in a deterministic order.

use vstd::prelude::*;
use crate::card::{Card, Combo, card_ok, combo_ok, CardMarks};
use crate::combinatorics::full_deck;
use crate::input::HoleCardsInput;

verus! {

/// The views of a vector of combo vectors.
pub open spec fn combo_seqs(vs: Seq<Vec<Combo>>) -> Seq<Seq<Combo>> {
    Seq::new(vs.len(), |i: int| vs[i]@)
}

/// Whether both cards of `h` are free of `used`.
pub open spec fn combo_avail(h: Combo, used: Set<Card>) -> bool {
    !used.contains(h.first) && !used.contains(h.second)
}

/// Candidate holdings of a player with one known card: the known card paired
/// with every other deck card, in deck order.
pub open spec fn partial_candidates(c: Card, deck: Seq<Card>) -> Seq<Combo>
    decreases deck.len(),
{
    if deck.len() == 0 {
        Seq::empty()
    } else {
        partial_candidates(c, deck.drop_last()) + if deck.last() != c {
            seq![Combo { first: c, second: deck.last() }]
        } else {
            Seq::empty()
        }
    }
}

/// Candidate holdings of a fully unknown player: every unordered pair of
/// deck cards, first card major, in deck order.
pub open spec fn unknown_candidates(deck: Seq<Card>) -> Seq<Combo>
    decreases deck.len(),
{
    if deck.len() == 0 {
        Seq::empty()
    } else {
        deck.drop_first().map_values(|d: Card| Combo { first: deck[0], second: d })
            + unknown_candidates(deck.drop_first())
    }
}

/// The ordered candidate list of one player.
pub open spec fn hole_candidates(h: HoleCardsInput, deck: Seq<Card>) -> Seq<Combo> {
    match h {
        HoleCardsInput::Exact(combo) => seq![combo],
        HoleCardsInput::Range(v) => v@,
        HoleCardsInput::Partial(c) => partial_candidates(c, deck),
        HoleCardsInput::Unknown => unknown_candidates(deck),
    }
}

/// The candidate lists of all players, against the fixed deck.
pub open spec fn spec_candidates(specs: Seq<HoleCardsInput>) -> Seq<Seq<Combo>> {
    Seq::new(specs.len(), |i: int| hole_candidates(specs[i], full_deck()))
}

/// All valid assignments: one candidate per player, later players first
/// filtered against the cards taken by earlier ones. The order is the
/// depth-first order of the candidate lists.
pub open spec fn assign_seqs(cands: Seq<Seq<Combo>>, used: Set<Card>) -> Seq<Seq<Combo>>
    decreases cands.len(), 0nat,
{
    if cands.len() == 0 {
        seq![Seq::<Combo>::empty()]
    } else {
        assign_over(cands[0], cands.drop_first(), used)
    }
}

/// The assignments that draw the first player's holding from `list`.
pub open spec fn assign_over(list: Seq<Combo>, rest: Seq<Seq<Combo>>, used: Set<Card>) -> Seq<
    Seq<Combo>,
>
    decreases rest.len(), list.len() + 1,
{
    if list.len() == 0 {
        Seq::empty()
    } else {
        let butlast = assign_over(list.drop_last(), rest, used);
        let h = list.last();
        if combo_avail(h, used) {
            butlast + assign_seqs(rest, used.insert(h.first).insert(h.second)).map_values(
                |t: Seq<Combo>| seq![h] + t,
            )
        } else {
            butlast
        }
    }
}

/// A prefix of the candidate list contributes no more assignments than the
/// whole list.
pub proof fn lemma_assign_over_prefix(list: Seq<Combo>, rest: Seq<Seq<Combo>>, used: Set<Card>, j: int)
    requires
        0 <= j <= list.len(),
    ensures
        assign_over(list.take(j), rest, used).len() <= assign_over(list, rest, used).len(),
    decreases list.len(),
{
    if j == list.len() {
        assert(list.take(j) =~= list);
    } else {
        lemma_assign_over_prefix(list.drop_last(), rest, used, j);
        assert(list.drop_last().take(j) =~= list.take(j));
    }
}

/// Whether every candidate of every player is a well-formed holding.
pub open spec fn cands_ok(cands: Seq<Seq<Combo>>) -> bool {
    forall|i: int, j: int|
        0 <= i < cands.len() && 0 <= j < cands[i].len() ==> combo_ok(#[trigger] cands[i][j])
}

/// A tuple of holdings whose cards are pairwise distinct and free of `used`.
pub open spec fn tuple_disjoint(t: Seq<Combo>, used: Set<Card>) -> bool
    decreases t.len(),
{
    if t.len() == 0 {
        true
    } else {
        combo_avail(t[0], used) && tuple_disjoint(
            t.drop_first(),
            used.insert(t[0].first).insert(t[0].second),
        )
    }
}

/// Every enumerated assignment picks one candidate per player and respects
/// card uniqueness against `used`.
pub proof fn lemma_assign_seqs_valid(cands: Seq<Seq<Combo>>, used: Set<Card>)
    ensures
        forall|t: Seq<Combo>| #[trigger]
            assign_seqs(cands, used).contains(t) ==> t.len() == cands.len() && (forall|i: int|
                0 <= i < t.len() ==> cands[i].contains(#[trigger] t[i])) && tuple_disjoint(t, used),
    decreases cands.len(), 0nat,
{
    if cands.len() == 0 {
    } else {
        lemma_assign_over_valid(cands[0], cands.drop_first(), used);
        assert forall|t: Seq<Combo>| #[trigger] assign_seqs(cands, used).contains(t) implies t.len()
            == cands.len() && (forall|i: int|
            0 <= i < t.len() ==> cands[i].contains(#[trigger] t[i])) && tuple_disjoint(t, used) by {
            assert(assign_over(cands[0], cands.drop_first(), used).contains(t));
            assert(forall|i: int|
                0 <= i < cands.drop_first().len() ==> cands.drop_first()[i] == #[trigger] cands[i
                    + 1]);
        }
    }
}

/// As [`lemma_assign_seqs_valid`], for the first player's candidate list.
proof fn lemma_assign_over_valid(list: Seq<Combo>, rest: Seq<Seq<Combo>>, used: Set<Card>)
    ensures
        forall|t: Seq<Combo>| #[trigger]
            assign_over(list, rest, used).contains(t) ==> t.len() == rest.len() + 1
                && list.contains(t[0]) && (forall|i: int|
                1 <= i < t.len() ==> rest[i - 1].contains(#[trigger] t[i])) && tuple_disjoint(
                t,
                used,
            ),
    decreases rest.len(), list.len() + 1,
{
    if list.len() == 0 {
    } else {
        let h = list.last();
        lemma_assign_over_valid(list.drop_last(), rest, used);
        if combo_avail(h, used) {
            let used2 = used.insert(h.first).insert(h.second);
            lemma_assign_seqs_valid(rest, used2);
            let block = assign_seqs(rest, used2).map_values(|t: Seq<Combo>| seq![h] + t);
            assert forall|t: Seq<Combo>| #[trigger] assign_over(list, rest, used).contains(
                t,
            ) implies t.len() == rest.len() + 1 && list.contains(t[0]) && (forall|i: int|
                1 <= i < t.len() ==> rest[i - 1].contains(#[trigger] t[i])) && tuple_disjoint(
                t,
                used,
            ) by {
                let whole = assign_over(list, rest, used);
                let butlast = assign_over(list.drop_last(), rest, used);
                let idx = choose|idx: int| 0 <= idx < whole.len() && whole[idx] == t;
                if idx < butlast.len() {
                    assert(butlast.contains(t));
                    assert(list.drop_last().contains(t[0]));
                    let k = choose|k: int|
                        0 <= k < list.drop_last().len() && list.drop_last()[k] == t[0];
                    assert(list[k] == t[0]);
                } else {
                    let t0 = assign_seqs(rest, used2)[idx - butlast.len()];
                    assert(assign_seqs(rest, used2).contains(t0));
                    assert(t == seq![h] + t0);
                    assert(t[0] == h);
                    assert(list.contains(h)) by {
                        assert(list[list.len() - 1] == h);
                    }
                    assert(t.drop_first() =~= t0);
                    assert(forall|i: int| 1 <= i < t.len() ==> t[i] == #[trigger] t0[i - 1]);
                    assert(tuple_disjoint(t, used));
                }
            }
        } else {
            assert forall|t: Seq<Combo>| #[trigger] assign_over(list, rest, used).contains(
                t,
            ) implies t.len() == rest.len() + 1 && list.contains(t[0]) && (forall|i: int|
                1 <= i < t.len() ==> rest[i - 1].contains(#[trigger] t[i])) && tuple_disjoint(
                t,
                used,
            ) by {
                assert(assign_over(list.drop_last(), rest, used).contains(t));
                assert(list.drop_last().contains(t[0]));
                let k = choose|k: int|
                    0 <= k < list.drop_last().len() && list.drop_last()[k] == t[0];
                assert(list[k] == t[0]);
            }
        }
    }
}

/// Counts the assignments below `idx`'s suffix of the candidate lists,
/// capped at `cap`.
#[verifier::loop_isolation(false)]
fn count_assign(cands: &Vec<Vec<Combo>>, idx: usize, used: &mut CardMarks, cap: u128) -> (r: u128)
    requires
        old(used).wf(),
        idx <= cands@.len(),
        cands_ok(combo_seqs(cands@)),
    ensures
        final(used).wf(),
        final(used)@ == old(used)@,
        ({
            let total = assign_seqs(combo_seqs(cands@).skip(idx as int), old(used)@).len();
            r == if total >= cap {
                cap
            } else {
                total as u128
            }
        }),
    decreases cands@.len() - idx,
{
    let ghost tail = combo_seqs(cands@).skip(idx as int);
    if idx == cands.len() {
        proof {
            assert(tail.len() == 0);
        }
        if cap == 0 {
            return 0;
        }
        return 1;
    }
    proof {
        assert(tail.len() > 0);
        assert(tail[0] == cands@[idx as int]@);
        assert(tail.drop_first() =~= combo_seqs(cands@).skip(idx + 1));
    }
    let ghost list = cands@[idx as int]@;
    let ghost rest = combo_seqs(cands@).skip(idx + 1);
    let n = cands[idx].len();
    let mut total: u128 = 0;
    let mut j: usize = 0;
    while j < n
        invariant
            j <= n,
            used.wf(),
            used@ == old(used)@,
            ({
                let sofar = assign_over(list.take(j as int), rest, old(used)@).len();
                total == if sofar >= cap {
                    cap
                } else {
                    sofar as u128
                }
            }),
        decreases n - j,
    {
        if total == cap {
            proof {
                lemma_assign_over_prefix(list, rest, old(used)@, j as int);
                if cap > 0 {
                    assert(assign_over(list.take(j as int), rest, old(used)@).len() >= cap);
                }
            }
            return cap;
        }
        let h = cands[idx][j];
        proof {
            assert(list.take(j + 1).drop_last() =~= list.take(j as int));
            assert(list.take(j + 1).last() == list[j as int]);
            assert(combo_ok(h)) by {
                assert(combo_seqs(cands@)[idx as int][j as int] == h);
            }
        }
        let avail = !used.contains(h.first) && !used.contains(h.second);
        if avail {
            used.insert(h.first);
            used.insert(h.second);
            let sub = count_assign(cands, idx + 1, used, cap - total);
            used.remove(h.second);
            used.remove(h.first);
            proof {
                assert(used@ =~= old(used)@);
                assert(old(used)@.insert(h.first).insert(h.second).remove(h.second).remove(h.first)
                    =~= old(used)@);
            }
            total = total + sub;
        }
        j = j + 1;
    }
    proof {
        assert(list.take(n as int) =~= list);
    }
    total
}

/// An independent copy of a combo vector.
pub(crate) fn copy_combos(v: &Vec<Combo>) -> (r: Vec<Combo>)
    ensures
        r@ == v@,
{
    let mut r: Vec<Combo> = Vec::new();
    let n = v.len();
    let mut i: usize = 0;
    while i < n
        invariant
            i <= n,
            n == v@.len(),
            r@ == v@.take(i as int),
        decreases n - i,
    {
        r.push(v[i]);
        proof {
            assert(v@.take(i + 1) =~= v@.take(i as int).push(v@[i as int]));
        }
        i = i + 1;
    }
    proof {
        assert(v@.take(n as int) =~= v@);
    }
    r
}

/// Appends every assignment of the candidate suffix from `idx`, each
/// prefixed with the holdings already chosen.
#[verifier::loop_isolation(false)]
fn collect_assign(
    cands: &Vec<Vec<Combo>>,
    idx: usize,
    used: &mut CardMarks,
    chosen: &mut Vec<Combo>,
    out: &mut Vec<Vec<Combo>>,
)
    requires
        old(used).wf(),
        idx <= cands@.len(),
        cands_ok(combo_seqs(cands@)),
    ensures
        final(used).wf(),
        final(used)@ == old(used)@,
        final(chosen)@ == old(chosen)@,
        combo_seqs(final(out)@) == combo_seqs(old(out)@) + assign_seqs(
            combo_seqs(cands@).skip(idx as int),
            old(used)@,
        ).map_values(|t: Seq<Combo>| old(chosen)@ + t),
    decreases cands@.len() - idx,
{
    let ghost tail = combo_seqs(cands@).skip(idx as int);
    if idx == cands.len() {
        let copy = copy_combos(chosen);
        out.push(copy);
        proof {
            assert(tail.len() == 0);
            assert(combo_seqs(out@) =~= combo_seqs(old(out)@) + assign_seqs(
                tail,
                old(used)@,
            ).map_values(|t: Seq<Combo>| old(chosen)@ + t)) by {
                assert(old(chosen)@ + Seq::<Combo>::empty() =~= old(chosen)@);
            }
        }
        return ;
    }
    proof {
        assert(tail.len() > 0);
        assert(tail[0] == cands@[idx as int]@);
        assert(tail.drop_first() =~= combo_seqs(cands@).skip(idx + 1));
    }
    let ghost list = cands@[idx as int]@;
    let ghost rest = combo_seqs(cands@).skip(idx + 1);
    let ghost pre = old(chosen)@;
    let n = cands[idx].len();
    let mut j: usize = 0;
    while j < n
        invariant
            j <= n,
            used.wf(),
            used@ == old(used)@,
            chosen@ == old(chosen)@,
            combo_seqs(out@) == combo_seqs(old(out)@) + assign_over(
                list.take(j as int),
                rest,
                old(used)@,
            ).map_values(|t: Seq<Combo>| pre + t),
        decreases n - j,
    {
        let h = cands[idx][j];
        proof {
            assert(list.take(j + 1).drop_last() =~= list.take(j as int));
            assert(list.take(j + 1).last() == list[j as int]);
            assert(combo_ok(h)) by {
                assert(combo_seqs(cands@)[idx as int][j as int] == h);
            }
        }
        let avail = !used.contains(h.first) && !used.contains(h.second);
        if avail {
            used.insert(h.first);
            used.insert(h.second);
            chosen.push(h);
            let ghost mid_out = out@;
            collect_assign(cands, idx + 1, used, chosen, out);
            chosen.pop();
            used.remove(h.second);
            used.remove(h.first);
            proof {
                assert(used@ =~= old(used)@);
                assert(old(used)@.insert(h.first).insert(h.second).remove(h.second).remove(h.first)
                    =~= old(used)@);
                assert(chosen@ =~= old(chosen)@);
                let used2 = old(used)@.insert(h.first).insert(h.second);
                let block = assign_seqs(rest, used2);
                let f_long = |t: Seq<Combo>| (pre.push(h)) + t;
                let f_short = |t: Seq<Combo>| pre + t;
                let f_cons = |t: Seq<Combo>| seq![h] + t;
                assert(combo_seqs(out@) == combo_seqs(mid_out) + block.map_values(f_long));
                assert(combo_seqs(out@) =~= combo_seqs(old(out)@) + assign_over(
                    list.take(j + 1),
                    rest,
                    old(used)@,
                ).map_values(f_short)) by {
                    assert(block.map_values(f_long) =~= block.map_values(f_cons).map_values(
                        f_short,
                    )) by {
                        assert forall|i: int| 0 <= i < block.len() implies block.map_values(
                            f_long,
                        )[i] == block.map_values(f_cons).map_values(f_short)[i] by {
                            assert(pre.push(h) + block[i] =~= pre + (seq![h] + block[i]));
                        }
                    }
                    assert(assign_over(list.take(j + 1), rest, old(used)@) == assign_over(
                        list.take(j as int),
                        rest,
                        old(used)@,
                    ) + block.map_values(f_cons));
                }
            }
        } else {
            proof {
                assert(combo_seqs(out@) =~= combo_seqs(old(out)@) + assign_over(
                    list.take(j + 1),
                    rest,
                    old(used)@,
                ).map_values(|t: Seq<Combo>| pre + t));
            }
        }
        j = j + 1;
    }
    proof {
        assert(list.take(n as int) =~= list);
    }
}

/// Builds each player's candidate list against the full deck.
#[verifier::loop_isolation(false)]
pub(crate) fn candidate_lists(specs: &Vec<HoleCardsInput>) -> (r: Vec<Vec<Combo>>)
    requires
        specs_wf(specs@),
    ensures
        combo_seqs(r@) == spec_candidates(specs@),
        cands_ok(combo_seqs(r@)),
{
    let deck = crate::combinatorics::all_cards();
    let mut r: Vec<Vec<Combo>> = Vec::new();
    let n = specs.len();
    let mut i: usize = 0;
    while i < n
        invariant
            i <= n,
            deck@ == full_deck(),
            r@.len() == i,
            forall|k: int|
                0 <= k < i ==> combo_seqs(r@)[k] == hole_candidates(specs@[k], full_deck()),
        decreases n - i,
    {
        let spec_i = &specs[i];
        proof {
            assert(*spec_i == specs@[i as int]);
        }
        let list = match spec_i {
            HoleCardsInput::Exact(h) => {
                let mut v: Vec<Combo> = Vec::new();
                v.push(*h);
                proof {
                    assert(v@ =~= seq![*h]);
                    assert(v@ == hole_candidates(specs@[i as int], full_deck()));
                }
                v
            },
            HoleCardsInput::Range(v) => {
                let copy = copy_combos(v);
                proof {
                    assert(copy@ == hole_candidates(specs@[i as int], full_deck()));
                }
                copy
            },
            HoleCardsInput::Partial(c) => {
                let l = partial_list(*c, &deck);
                proof {
                    assert(l@ == hole_candidates(specs@[i as int], full_deck()));
                }
                l
            },
            HoleCardsInput::Unknown => {
                let l = unknown_list(&deck);
                proof {
                    assert(l@ == hole_candidates(specs@[i as int], full_deck()));
                }
                l
            },
        };
        proof {
            assert(list@ == hole_candidates(specs@[i as int], full_deck()));
        }
        let ghost prev = r@;
        r.push(list);
        proof {
            assert forall|k: int|
                0 <= k < i + 1 implies combo_seqs(r@)[k] == hole_candidates(
                specs@[k],
                full_deck(),
            ) by {
                assert(combo_seqs(r@)[k] == r@[k]@);
                if k < i {
                    assert(r@[k] == prev[k]);
                    assert(combo_seqs(prev)[k] == prev[k]@);
                } else {
                    assert(r@[k] == list);
                }
            }
        }
        i = i + 1;
    }
    proof {
        assert(combo_seqs(r@) =~= spec_candidates(specs@));
        lemma_spec_candidates_ok(specs@);
    }
    r
}

/// Whether a player model is well formed: known cards valid, ranges
/// non-empty with well-formed holdings.
pub open spec fn hole_input_wf(h: HoleCardsInput) -> bool {
    match h {
        HoleCardsInput::Exact(combo) => combo_ok(combo),
        HoleCardsInput::Range(v) => v@.len() > 0 && forall|i: int|
            0 <= i < v@.len() ==> combo_ok(#[trigger] v@[i]),
        HoleCardsInput::Partial(c) => card_ok(c),
        HoleCardsInput::Unknown => true,
    }
}

/// Whether every player model is well formed.
pub open spec fn specs_wf(specs: Seq<HoleCardsInput>) -> bool {
    forall|i: int| 0 <= i < specs.len() ==> hole_input_wf(#[trigger] specs[i])
}

/// Candidates of well-formed players are well-formed holdings.
pub proof fn lemma_spec_candidates_ok(specs: Seq<HoleCardsInput>)
    requires
        specs_wf(specs),
    ensures
        cands_ok(spec_candidates(specs)),
{
    crate::combinatorics::lemma_full_deck_ok();
    crate::combinatorics::lemma_full_deck_distinct();
    assert forall|i: int, j: int|
        0 <= i < spec_candidates(specs).len() && 0 <= j < spec_candidates(specs)[i].len()
        implies combo_ok(#[trigger] spec_candidates(specs)[i][j]) by {
        match specs[i] {
            HoleCardsInput::Exact(_) => {},
            HoleCardsInput::Range(_) => {},
            HoleCardsInput::Partial(c) => {
                lemma_partial_candidates_ok(c, full_deck());
            },
            HoleCardsInput::Unknown => {
                lemma_unknown_candidates_ok(full_deck());
            },
        }
    }
}

/// Partial candidates pair the known card with a different, valid card.
proof fn lemma_partial_candidates_ok(c: Card, deck: Seq<Card>)
    requires
        card_ok(c),
        forall|i: int| 0 <= i < deck.len() ==> card_ok(#[trigger] deck[i]),
    ensures
        forall|j: int|
            0 <= j < partial_candidates(c, deck).len() ==> combo_ok(
                #[trigger] partial_candidates(c, deck)[j],
            ),
    decreases deck.len(),
{
    if deck.len() > 0 {
        assert(forall|i: int|
            0 <= i < deck.drop_last().len() ==> deck.drop_last()[i] == #[trigger] deck[i]);
        lemma_partial_candidates_ok(c, deck.drop_last());
        let prefix = partial_candidates(c, deck.drop_last());
        assert forall|j: int|
            0 <= j < partial_candidates(c, deck).len() implies combo_ok(
            #[trigger] partial_candidates(c, deck)[j],
        ) by {
            if j < prefix.len() {
                assert(partial_candidates(c, deck)[j] == prefix[j]);
            } else {
                assert(deck.last() != c);
                assert(partial_candidates(c, deck)[j] == Combo { first: c, second: deck.last() });
                assert(card_ok(deck.last()));
            }
        }
    }
}

/// Unknown candidates pair two distinct valid deck cards.
proof fn lemma_unknown_candidates_ok(deck: Seq<Card>)
    requires
        forall|i: int| 0 <= i < deck.len() ==> card_ok(#[trigger] deck[i]),
        deck.no_duplicates(),
    ensures
        forall|j: int|
            0 <= j < unknown_candidates(deck).len() ==> combo_ok(
                #[trigger] unknown_candidates(deck)[j],
            ),
    decreases deck.len(),
{
    if deck.len() > 0 {
        let rest = deck.drop_first();
        assert(forall|i: int| 0 <= i < rest.len() ==> rest[i] == #[trigger] deck[i + 1]);
        lemma_unknown_candidates_ok(rest);
        let head_block = rest.map_values(|d: Card| Combo { first: deck[0], second: d });
        assert forall|j: int|
            0 <= j < unknown_candidates(deck).len() implies combo_ok(
            #[trigger] unknown_candidates(deck)[j],
        ) by {
            if j < head_block.len() {
                assert(head_block[j].second == rest[j]);
                assert(deck[0] != rest[j]);
            } else {
                assert(unknown_candidates(deck)[j] == unknown_candidates(rest)[j
                    - head_block.len()]);
            }
        }
    }
}

/// The candidate list of a player with one known card.
#[verifier::loop_isolation(false)]
fn partial_list(c: Card, deck: &Vec<Card>) -> (r: Vec<Combo>)
    ensures
        r@ == partial_candidates(c, deck@),
{
    let mut r: Vec<Combo> = Vec::new();
    let n = deck.len();
    let mut i: usize = 0;
    while i < n
        invariant
            i <= n,
            r@ == partial_candidates(c, deck@.take(i as int)),
        decreases n - i,
    {
        let d = deck[i];
        proof {
            assert(deck@.take(i + 1).drop_last() =~= deck@.take(i as int));
            assert(deck@.take(i + 1).last() == deck@[i as int]);
        }
        if !(d.value == c.value && d.suit == c.suit) {
            proof {
                assert(d != c);
            }
            r.push(Combo { first: c, second: d });
            proof {
                assert(r@ =~= partial_candidates(c, deck@.take(i + 1)));
            }
        } else {
            proof {
                assert(d == c);
                assert(r@ =~= partial_candidates(c, deck@.take(i + 1)));
            }
        }
        i = i + 1;
    }
    proof {
        assert(deck@.take(n as int) =~= deck@);
    }
    r
}

/// The candidate list of a fully unknown player.
#[verifier::loop_isolation(false)]
fn unknown_list(deck: &Vec<Card>) -> (r: Vec<Combo>)
    ensures
        r@ == unknown_candidates(deck@),
{
    let mut r: Vec<Combo> = Vec::new();
    let n = deck.len();
    let mut i: usize = 0;
    proof {
        assert(deck@.skip(0) =~= deck@);
        assert(Seq::<Combo>::empty() + unknown_candidates(deck@) =~= unknown_candidates(deck@));
    }
    while i < n
        invariant
            i <= n,
            r@ + unknown_candidates(deck@.skip(i as int)) == unknown_candidates(deck@),
        decreases n - i,
    {
        proof {
            assert(deck@.skip(i as int).len() > 0);
            assert(deck@.skip(i as int)[0] == deck@[i as int]);
            assert(deck@.skip(i as int).drop_first() =~= deck@.skip(i + 1));
        }
        let head = deck[i];
        let ghost suffix = deck@.skip(i + 1);
        let ghost before_inner = r@;
        let mut j: usize = i + 1;
        while j < n
            invariant
                i + 1 <= j <= n,
                head == deck@[i as int],
                r@ == before_inner + deck@.subrange(i + 1, j as int).map_values(
                    |d: Card| Combo { first: head, second: d },
                ),
            decreases n - j,
        {
            r.push(Combo { first: head, second: deck[j] });
            proof {
                assert(r@ =~= before_inner + deck@.subrange(i + 1, j + 1).map_values(
                    |d: Card| Combo { first: head, second: d },
                ));
            }
            j = j + 1;
        }
        proof {
            assert(deck@.subrange(i + 1, n as int) =~= deck@.skip(i + 1));
            assert(deck@.skip(i as int).drop_first() =~= deck@.skip(i + 1));
            assert(unknown_candidates(deck@.skip(i as int)) == deck@.skip(i + 1).map_values(
                |d: Card| Combo { first: deck@[i as int], second: d },
            ) + unknown_candidates(deck@.skip(i + 1)));
            assert(r@ + unknown_candidates(deck@.skip(i + 1)) =~= unknown_candidates(deck@));
        }
        i = i + 1;
    }
    proof {
        assert(deck@.skip(n as int) =~= Seq::<Card>::empty());
        assert(r@ =~= unknown_candidates(deck@));
    }
    r
}

/// Counts the valid hand assignments of the given players against the
/// board, stopping once `max_exclusive` is reached.
pub fn count_valid_assignments_for_specs(
    specs: &Vec<HoleCardsInput>,
    board: &Vec<Card>,
    max_exclusive: Option<u128>,
) -> (r: u128)
    requires
        specs_wf(specs@),
        forall|i: int| 0 <= i < board@.len() ==> card_ok(#[trigger] board@[i]),
    ensures
        ({
            let total = assign_seqs(spec_candidates(specs@), board@.to_set()).len();
            let cap = match max_exclusive {
                Some(m) => m,
                None => u128::MAX,
            };
            r == if total >= cap {
                cap
            } else {
                total as u128
            }
        }),
{
    let cands = candidate_lists(specs);
    let mut used = CardMarks::new();
    used.insert_all(board);
    let cap: u128 = match max_exclusive {
        Some(m) => m,
        None => u128::MAX,
    };
    proof {
        assert(Set::<Card>::empty().union(board@.to_set()) =~= board@.to_set());
        assert(combo_seqs(cands@).skip(0) =~= combo_seqs(cands@));
    }
    count_assign(&cands, 0, &mut used, cap)
}

/// All valid hand assignments of the given players against the board, in
/// the deterministic depth-first order.
pub fn valid_assignments_for_specs(specs: &Vec<HoleCardsInput>, board: &Vec<Card>) -> (r: Vec<
    Vec<Combo>,
>)
    requires
        specs_wf(specs@),
        forall|i: int| 0 <= i < board@.len() ==> card_ok(#[trigger] board@[i]),
    ensures
        combo_seqs(r@) == assign_seqs(spec_candidates(specs@), board@.to_set()),
{
    let cands = candidate_lists(specs);
    let mut used = CardMarks::new();
    used.insert_all(board);
    let mut chosen: Vec<Combo> = Vec::new();
    let mut out: Vec<Vec<Combo>> = Vec::new();
    proof {
        assert(Set::<Card>::empty().union(board@.to_set()) =~= board@.to_set());
        assert(combo_seqs(cands@).skip(0) =~= combo_seqs(cands@));
    }
    collect_assign(&cands, 0, &mut used, &mut chosen, &mut out);
    proof {
        let total = assign_seqs(spec_candidates(specs@), board@.to_set());
        assert(combo_seqs(out@) =~= total) by {
            assert(combo_seqs(Seq::<Vec<Combo>>::empty()) =~= Seq::<Seq<Combo>>::empty());
            assert forall|i: int| 0 <= i < total.len() implies Seq::<Combo>::empty() + total[i]
                == total[i] by {
                assert(Seq::<Combo>::empty() + total[i] =~= total[i]);
            }
            assert(total.map_values(|t: Seq<Combo>| Seq::<Combo>::empty() + t) =~= total);
        }
    }
    out
}

} // verus!
