//! Laws of the solver, stated and proved over its specification model.

use vstd::prelude::*;
use crate::card::{Card, Combo, combos_cards};
use crate::input::HoleCardsInput;
use crate::assign::{spec_candidates, assign_seqs, assign_over, tuple_disjoint, combo_avail, hole_candidates};
use crate::combinatorics::{binom, full_deck, combos};
use crate::engine::{exact_equities, win_view, tuple_equity, deal_ranks, deal_credit, wins_over, sum_int, seq_add_int, zero_ints, residual_of, deal_used, is_winner};
use crate::rank::rank_le;
use crate::solve::{runout_count, assignment_count, exact_assignment_limit, picks_exact};

verus! {

/// The sequence with the entries at two positions exchanged.
pub open spec fn swap_seq<A>(s: Seq<A>, a: int, b: int) -> Seq<A> {
    s.update(a, s[b]).update(b, s[a])
}

/// Updating one entry moves the sum by the difference.
proof fn lemma_sum_update(s: Seq<int>, i: int, v: int)
    requires
        0 <= i < s.len(),
    ensures
        sum_int(s.update(i, v)) == sum_int(s) - s[i] + v,
    decreases s.len(),
{
    if i == s.len() - 1 {
        assert(s.update(i, v).drop_last() =~= s.drop_last());
        assert(s.update(i, v).last() == v);
    } else {
        lemma_sum_update(s.drop_last(), i, v);
        assert(s.update(i, v).drop_last() =~= s.drop_last().update(i, v));
        assert(s.update(i, v).last() == s.last());
    }
}

/// Exchanging two entries keeps the sum.
proof fn lemma_sum_swap(s: Seq<int>, a: int, b: int)
    requires
        0 <= a < s.len(),
        0 <= b < s.len(),
    ensures
        sum_int(swap_seq(s, a, b)) == sum_int(s),
{
    if a == b {
        assert(swap_seq(s, a, b) =~= s);
    } else {
        lemma_sum_update(s, a, s[b]);
        lemma_sum_update(s.update(a, s[b]), b, s[a]);
        assert(s.update(a, s[b])[b] == s[b]);
    }
}

/// Whether holding `i` of the list carries card `c`.
spec fn carries(hs: Seq<Combo>, i: int, c: Card) -> bool {
    hs[i].first == c || hs[i].second == c
}

/// A card belongs to a holding list exactly when some holding carries it.
proof fn lemma_combos_cards_iff(hs: Seq<Combo>)
    ensures
        forall|c: Card|
            combos_cards(hs).contains(c) <==> exists|i: int|
                0 <= i < hs.len() && #[trigger] carries(hs, i, c),
    decreases hs.len(),
{
    if hs.len() > 0 {
        lemma_combos_cards_iff(hs.drop_last());
        assert(forall|i: int| 0 <= i < hs.len() - 1 ==> hs.drop_last()[i] == #[trigger] hs[i]);
        assert forall|c: Card|
            combos_cards(hs).contains(c) <==> exists|i: int|
                0 <= i < hs.len() && #[trigger] carries(hs, i, c) by {
            if combos_cards(hs).contains(c) {
                if combos_cards(hs.drop_last()).contains(c) {
                    let i = choose|i: int|
                        0 <= i < hs.drop_last().len() && #[trigger] carries(hs.drop_last(), i, c);
                    assert(carries(hs, i, c));
                } else {
                    assert(carries(hs, hs.len() - 1, c));
                }
            }
            if exists|i: int| 0 <= i < hs.len() && #[trigger] carries(hs, i, c) {
                let i = choose|i: int| 0 <= i < hs.len() && #[trigger] carries(hs, i, c);
                if i < hs.len() - 1 {
                    assert(carries(hs.drop_last(), i, c));
                    assert(combos_cards(hs.drop_last()).contains(c));
                } else {
                    assert(combos_cards(hs).contains(c));
                }
            }
        }
    }
}

/// Exchanging two holdings leaves the set of dealt cards unchanged.
proof fn lemma_deal_used_swap(hands: Seq<Combo>, board: Seq<Card>, a: int, b: int)
    requires
        0 <= a < hands.len(),
        0 <= b < hands.len(),
    ensures
        deal_used(swap_seq(hands, a, b), board) == deal_used(hands, board),
{
    let h2 = swap_seq(hands, a, b);
    lemma_combos_cards_iff(hands);
    lemma_combos_cards_iff(h2);
    assert(h2.len() == hands.len());
    assert forall|c: Card|
        combos_cards(h2).contains(c) <==> combos_cards(hands).contains(c) by {
        if combos_cards(h2).contains(c) {
            let i = choose|i: int| 0 <= i < h2.len() && #[trigger] carries(h2, i, c);
            if i == a {
                assert(carries(hands, b, c));
            } else if i == b {
                assert(carries(hands, a, c));
            } else {
                assert(carries(hands, i, c));
            }
        }
        if combos_cards(hands).contains(c) {
            let i = choose|i: int| 0 <= i < hands.len() && #[trigger] carries(hands, i, c);
            if i == a {
                assert(carries(h2, b, c));
            } else if i == b {
                assert(carries(h2, a, c));
            } else {
                assert(carries(h2, i, c));
            }
        }
    }
    assert(combos_cards(h2) =~= combos_cards(hands));
    assert(deal_used(h2, board) =~= deal_used(hands, board));
}

/// For one dealt board, exchanging two players exchanges their win credits.
proof fn lemma_deal_credit_swap(hands: Seq<Combo>, fb: Seq<Card>, a: int, b: int)
    requires
        0 <= a < hands.len(),
        0 <= b < hands.len(),
    ensures
        deal_credit(swap_seq(hands, a, b), fb) == swap_seq(deal_credit(hands, fb), a, b),
{
    let h2 = swap_seq(hands, a, b);
    let r1 = deal_ranks(hands, fb);
    let r2 = deal_ranks(h2, fb);
    assert(h2.len() == hands.len());
    let swap_idx = |k: int| if k == a { b } else if k == b { a } else { k };
    assert forall|k: int| 0 <= k < hands.len() implies #[trigger] r2[k] == r1[swap_idx(k)] by {
        assert(h2[k] == hands[swap_idx(k)]);
    }
    assert forall|k: int|
        0 <= k < hands.len() implies (is_winner(r2, k) <==> is_winner(r1, swap_idx(k))) by {
        if is_winner(r2, k) {
            assert forall|j: int| 0 <= j < r1.len() implies rank_le(
                #[trigger] r1[j],
                r1[swap_idx(k)],
            ) by {
                assert(r2[swap_idx(j)] == r1[j]);
                assert(rank_le(r2[swap_idx(j)], r2[k]));
            }
        }
        if is_winner(r1, swap_idx(k)) {
            assert forall|j: int| 0 <= j < r2.len() implies rank_le(#[trigger] r2[j], r2[k]) by {
                assert(r2[j] == r1[swap_idx(j)]);
                assert(rank_le(r1[swap_idx(j)], r1[swap_idx(k)]));
            }
        }
    }
    assert(deal_credit(h2, fb) =~= swap_seq(deal_credit(hands, fb), a, b));
}

/// Over any runout list, exchanging two players exchanges their win units.
proof fn lemma_wins_over_swap(
    hands: Seq<Combo>,
    board: Seq<Card>,
    runouts: Seq<Seq<Card>>,
    a: int,
    b: int,
)
    requires
        0 <= a < hands.len(),
        0 <= b < hands.len(),
    ensures
        wins_over(swap_seq(hands, a, b), board, runouts) == swap_seq(
            wins_over(hands, board, runouts),
            a,
            b,
        ),
    decreases runouts.len(),
{
    let h2 = swap_seq(hands, a, b);
    assert(h2.len() == hands.len());
    if runouts.len() == 0 {
        assert forall|k: int|
            0 <= k < hands.len() implies #[trigger] swap_seq(zero_ints(hands.len()), a, b)[k]
            == 0 by {}
        assert(wins_over(h2, board, runouts) =~= swap_seq(wins_over(hands, board, runouts), a, b));
    } else {
        lemma_wins_over_swap(hands, board, runouts.drop_last(), a, b);
        lemma_deal_credit_swap(hands, board + runouts.last(), a, b);
        crate::engine::lemma_wins_over_bounds(hands, board, runouts.drop_last());
        crate::engine::lemma_wins_over_bounds(hands, board, runouts);
        let wd = wins_over(hands, board, runouts.drop_last());
        let cr = deal_credit(hands, board + runouts.last());
        let whole = wins_over(hands, board, runouts);
        assert forall|k: int|
            0 <= k < hands.len() implies #[trigger] seq_add_int(
            swap_seq(wd, a, b),
            swap_seq(cr, a, b),
        )[k] == swap_seq(whole, a, b)[k] by {
            if k == b {
                assert(swap_seq(wd, a, b)[k] == wd[a] && swap_seq(cr, a, b)[k] == cr[a]);
                assert(swap_seq(whole, a, b)[k] == whole[a]);
            } else if k == a {
                assert(swap_seq(wd, a, b)[k] == wd[b] && swap_seq(cr, a, b)[k] == cr[b]);
                assert(swap_seq(whole, a, b)[k] == whole[b]);
            } else {
                assert(swap_seq(wd, a, b)[k] == wd[k] && swap_seq(cr, a, b)[k] == cr[k]);
                assert(swap_seq(whole, a, b)[k] == whole[k]);
            }
        }
        assert(seq_add_int(swap_seq(wd, a, b), swap_seq(cr, a, b)) =~= swap_seq(whole, a, b));
    }
}

/// Permuting players permutes the equity vector identically, shown for the
/// exchange of two players within one hand assignment: exchanging two
/// holdings exchanges exactly those two equity shares.
pub proof fn lemma_tuple_equity_swap(hands: Seq<Combo>, board: Seq<Card>, a: int, b: int)
    requires
        0 <= a < hands.len(),
        0 <= b < hands.len(),
    ensures
        tuple_equity(swap_seq(hands, a, b), board) == swap_seq(tuple_equity(hands, board), a, b),
{
    let h2 = swap_seq(hands, a, b);
    assert(h2.len() == hands.len());
    lemma_deal_used_swap(hands, board, a, b);
    let runouts = combos(residual_of(deal_used(hands, board)), (5 - board.len()) as nat);
    lemma_wins_over_swap(hands, board, runouts, a, b);
    crate::engine::lemma_wins_over_bounds(hands, board, runouts);
    crate::engine::lemma_wins_over_bounds(h2, board, runouts);
    let w1 = wins_over(hands, board, runouts);
    let w2 = wins_over(h2, board, runouts);
    lemma_sum_swap(w1, a, b);
    assert(sum_int(w2) == sum_int(w1));
    if sum_int(w1) == 0 {
        assert(tuple_equity(h2, board) =~= swap_seq(tuple_equity(hands, board), a, b));
    } else {
        assert forall|k: int| 0 <= k < hands.len() implies #[trigger] tuple_equity(h2, board)[k]
            == swap_seq(tuple_equity(hands, board), a, b)[k] by {
            assert(w2[k] == swap_seq(w1, a, b)[k]);
        }
        assert(tuple_equity(h2, board) =~= swap_seq(tuple_equity(hands, board), a, b));
    }
}

/// The hands of players whose hole cards are all fully known.
pub open spec fn exact_combos(specs: Seq<HoleCardsInput>) -> Seq<Combo> {
    Seq::new(specs.len(), |i: int| specs[i]->Exact_0)
}

/// Whether every player's hole cards are fully known.
pub open spec fn all_exact(specs: Seq<HoleCardsInput>) -> bool {
    forall|i: int| 0 <= i < specs.len() ==> specs[i] is Exact
}

/// Fully known, non-colliding players admit exactly one hand assignment:
/// their own hands.
pub proof fn lemma_all_exact_single_assignment(specs: Seq<HoleCardsInput>, used: Set<Card>)
    requires
        all_exact(specs),
        tuple_disjoint(exact_combos(specs), used),
    ensures
        assign_seqs(spec_candidates(specs), used) == seq![exact_combos(specs)],
    decreases specs.len(),
{
    if specs.len() == 0 {
        assert(exact_combos(specs) =~= Seq::<Combo>::empty());
        assert(assign_seqs(spec_candidates(specs), used) == seq![Seq::<Combo>::empty()]);
    } else {
        let h = specs[0]->Exact_0;
        let t = exact_combos(specs);
        assert(t[0] == h);
        assert(t.drop_first() =~= exact_combos(specs.drop_first()));
        assert(combo_avail(h, used));
        let used2 = used.insert(h.first).insert(h.second);
        assert(all_exact(specs.drop_first())) by {
            assert(forall|i: int|
                0 <= i < specs.drop_first().len() ==> specs.drop_first()[i] == #[trigger] specs[i
                    + 1]);
        }
        lemma_all_exact_single_assignment(specs.drop_first(), used2);
        let cands = spec_candidates(specs);
        assert(cands[0] == seq![h]);
        assert(cands.drop_first() =~= spec_candidates(specs.drop_first()));
        // One-candidate list: the head is taken, nothing else exists.
        assert(cands[0].drop_last() =~= Seq::<Combo>::empty());
        assert(cands[0].last() == h);
        let tail = assign_seqs(spec_candidates(specs.drop_first()), used2);
        assert(tail == seq![exact_combos(specs.drop_first())]);
        let list = cands[0];
        let rest = cands.drop_first();
        assert(list.len() == 1 && list.last() == h);
        assert(assign_over(list.drop_last(), rest, used) == Seq::<Seq<Combo>>::empty()) by {
            assert(list.drop_last().len() == 0);
        }
        assert(assign_seqs(rest, used2) == tail);
        let whole = assign_seqs(cands, used);
        assert(whole == assign_over(list, rest, used));
        assert(whole.len() == 1);
        assert(whole[0] == seq![h] + tail[0]);
        assert(whole =~= seq![exact_combos(specs)]) by {
            assert(seq![h] + exact_combos(specs.drop_first()) =~= exact_combos(specs));
        }
    }
}

/// River scenarios with fully known, non-colliding hands always fit the
/// exact engine and carry exactly one state: the runout count is one, the
/// assignment count is one, and any positive budget admits enumeration.
/// Together with the solver's contract this pins the returned mode to
/// exact enumeration with a single counted state.
pub proof fn lemma_river_exact_single_state(
    specs: Seq<HoleCardsInput>,
    board: Seq<Card>,
    budget: nat,
)
    requires
        2 <= specs.len() <= 23,
        board.len() == 5,
        all_exact(specs),
        tuple_disjoint(exact_combos(specs), board.to_set()),
        budget >= 1,
    ensures
        runout_count(specs.len() as int, board.len() as int) == 1,
        assignment_count(specs, board) == 1,
        picks_exact(specs, board, budget),
        assignment_count(specs, board) * runout_count(specs.len() as int, board.len() as int)
            == 1,
{
    lemma_all_exact_single_assignment(specs, board.to_set());
    assert(assignment_count(specs, board) == 1);
    assert(runout_count(specs.len() as int, board.len() as int) == binom(
        (52 - 5 - 2 * specs.len()) as nat,
        0,
    ));
    assert(binom((52 - 5 - 2 * specs.len()) as nat, 0) == 1);
    assert(exact_assignment_limit(budget, 1) == budget / 1);
    assert(budget / 1 == budget) by (nonlinear_arith);
}

/// A fully known hand and the same hand written as a one-holding range
/// present the solver with identical candidate lists, and therefore the
/// identical assignment space, mode choice, and exact equities.
pub proof fn lemma_exact_matches_singleton_range(
    specs_a: Seq<HoleCardsInput>,
    specs_b: Seq<HoleCardsInput>,
    board: Seq<Card>,
    budget: nat,
)
    requires
        specs_a.len() == specs_b.len(),
        forall|i: int|
            0 <= i < specs_a.len() ==> #[trigger] specs_b[i] == specs_a[i] || (specs_a[i] is Exact
                && specs_b[i] is Range && specs_b[i]->Range_0@ == seq![specs_a[i]->Exact_0]),
    ensures
        spec_candidates(specs_a) == spec_candidates(specs_b),
        assignment_count(specs_a, board) == assignment_count(specs_b, board),
        picks_exact(specs_a, board, budget) == picks_exact(specs_b, board, budget),
        exact_equities(
            assign_seqs(spec_candidates(specs_a), board.to_set()),
            board,
            specs_a.len(),
        ) == exact_equities(
            assign_seqs(spec_candidates(specs_b), board.to_set()),
            board,
            specs_b.len(),
        ),
{
    assert forall|i: int|
        0 <= i < specs_a.len() implies #[trigger] spec_candidates(specs_b)[i] == spec_candidates(
        specs_a,
    )[i] by {
        if specs_b[i] == specs_a[i] {
        } else {
            let h = specs_a[i]->Exact_0;
            assert(hole_candidates(specs_b[i], full_deck()) == specs_b[i]->Range_0@);
            assert(hole_candidates(specs_a[i], full_deck()) == seq![h]);
        }
    }
    assert(spec_candidates(specs_a) =~= spec_candidates(specs_b));
}

/// The exact engine is a function of its inputs: two results whose
/// equities both equal the enumerated model value are identical. Together
/// with the solver's contract, repeated exact runs on one input return
/// bit-identical equity vectors.
pub proof fn lemma_exact_path_deterministic(
    eq1: Seq<u64>,
    eq2: Seq<u64>,
    specs: Seq<HoleCardsInput>,
    board: Seq<Card>,
)
    requires
        win_view(eq1) == exact_equities(
            assign_seqs(spec_candidates(specs), board.to_set()),
            board,
            specs.len(),
        ),
        win_view(eq2) == exact_equities(
            assign_seqs(spec_candidates(specs), board.to_set()),
            board,
            specs.len(),
        ),
    ensures
        eq1 == eq2,
{
    assert(eq1.len() == win_view(eq1).len());
    assert forall|i: int| 0 <= i < eq1.len() implies eq1[i] == eq2[i] by {
        assert(win_view(eq1)[i] == eq1[i] as int);
        assert(win_view(eq2)[i] == eq2[i] as int);
    }
    assert(eq1 =~= eq2);
}

/// Whether two holdings of the list share no card.
pub open spec fn holdings_distinct(t: Seq<Combo>, i: int, j: int) -> bool {
    t[i].first != t[j].first && t[i].first != t[j].second && t[i].second != t[j].first
        && t[i].second != t[j].second
}

/// The order-free reading of [`tuple_disjoint`]: every holding is clear of
/// the base set and no card appears in two holdings.
pub open spec fn tuple_disjoint_sym(t: Seq<Combo>, used: Set<Card>) -> bool {
    (forall|i: int|
        0 <= i < t.len() ==> !used.contains(#[trigger] t[i].first) && !used.contains(t[i].second))
        && (forall|i: int, j: int|
        0 <= i < t.len() && 0 <= j < t.len() && i != j ==> #[trigger] holdings_distinct(t, i, j))
}

/// The recursive and the order-free readings agree.
pub proof fn lemma_tuple_disjoint_sym(t: Seq<Combo>, used: Set<Card>)
    ensures
        tuple_disjoint(t, used) <==> tuple_disjoint_sym(t, used),
    decreases t.len(),
{
    if t.len() == 0 {
    } else {
        let rest = t.drop_first();
        let used2 = used.insert(t[0].first).insert(t[0].second);
        lemma_tuple_disjoint_sym(rest, used2);
        assert(forall|i: int| 0 <= i < rest.len() ==> rest[i] == #[trigger] t[i + 1]);
        if tuple_disjoint(t, used) {
            assert(tuple_disjoint_sym(rest, used2));
            assert forall|i: int|
                0 <= i < t.len() implies !used.contains(#[trigger] t[i].first) && !used.contains(
                t[i].second,
            ) by {
                if i >= 1 {
                    assert(!used2.contains(rest[i - 1].first) && !used2.contains(
                        rest[i - 1].second,
                    ));
                }
            }
            assert forall|i: int, j: int|
                0 <= i < t.len() && 0 <= j < t.len() && i != j implies #[trigger] holdings_distinct(
                t,
                i,
                j,
            ) by {
                if i == 0 {
                    assert(rest[j - 1] == t[j]);
                    assert(!used2.contains(rest[j - 1].first) && !used2.contains(
                        rest[j - 1].second,
                    ));
                    assert(used2.contains(t[0].first) && used2.contains(t[0].second));
                } else if j == 0 {
                    assert(rest[i - 1] == t[i]);
                    assert(!used2.contains(rest[i - 1].first) && !used2.contains(
                        rest[i - 1].second,
                    ));
                    assert(used2.contains(t[0].first) && used2.contains(t[0].second));
                } else {
                    assert(rest[i - 1] == t[i] && rest[j - 1] == t[j]);
                    assert(holdings_distinct(rest, i - 1, j - 1));
                }
            }
        }
        if tuple_disjoint_sym(t, used) {
            assert(combo_avail(t[0], used));
            assert(tuple_disjoint_sym(rest, used2)) by {
                assert forall|i: int|
                    0 <= i < rest.len() implies !used2.contains(#[trigger] rest[i].first)
                    && !used2.contains(rest[i].second) by {
                    assert(rest[i] == t[i + 1]);
                    assert(holdings_distinct(t, i + 1, 0));
                }
                assert forall|i: int, j: int|
                    0 <= i < rest.len() && 0 <= j < rest.len() && i != j implies #[trigger] holdings_distinct(
                    rest,
                    i,
                    j,
                ) by {
                    assert(rest[i] == t[i + 1] && rest[j] == t[j + 1]);
                    assert(holdings_distinct(t, i + 1, j + 1));
                }
            }
        }
    }
}

/// Permuting fully known players permutes the solver's exact equity
/// vector identically, shown for the exchange of two players.
pub proof fn lemma_all_exact_swap_equities(
    specs: Seq<HoleCardsInput>,
    board: Seq<Card>,
    a: int,
    b: int,
)
    requires
        0 <= a < specs.len(),
        0 <= b < specs.len(),
        all_exact(specs),
        tuple_disjoint(exact_combos(specs), board.to_set()),
    ensures
        exact_equities(
            assign_seqs(spec_candidates(swap_seq(specs, a, b)), board.to_set()),
            board,
            specs.len(),
        ) == swap_seq(
            exact_equities(assign_seqs(spec_candidates(specs), board.to_set()), board, specs.len()),
            a,
            b,
        ),
{
    let t1 = exact_combos(specs);
    let specs2 = swap_seq(specs, a, b);
    let t2 = exact_combos(specs2);
    assert(specs2.len() == specs.len());
    assert(t2 =~= swap_seq(t1, a, b));
    assert(all_exact(specs2)) by {
        assert forall|i: int| 0 <= i < specs2.len() implies specs2[i] is Exact by {
            if i == a {
                assert(specs2[i] == specs[b]);
            } else if i == b {
                assert(specs2[i] == specs[a]);
            } else {
                assert(specs2[i] == specs[i]);
            }
        }
    }
    lemma_tuple_disjoint_sym(t1, board.to_set());
    lemma_tuple_disjoint_sym(t2, board.to_set());
    assert(tuple_disjoint_sym(t2, board.to_set())) by {
        assert forall|i: int|
            0 <= i < t2.len() implies !board.to_set().contains(#[trigger] t2[i].first)
            && !board.to_set().contains(t2[i].second) by {
            if i == a {
                assert(t2[i] == t1[b]);
            } else if i == b {
                assert(t2[i] == t1[a]);
            } else {
                assert(t2[i] == t1[i]);
            }
        }
        assert forall|i: int, j: int|
            0 <= i < t2.len() && 0 <= j < t2.len() && i != j implies #[trigger] holdings_distinct(
            t2,
            i,
            j,
        ) by {
            let i1: int = if i == a { b } else if i == b { a } else { i };
            let j1: int = if j == a { b } else if j == b { a } else { j };
            assert(t2[i] == t1[i1] && t2[j] == t1[j1]);
            assert(i1 != j1);
            assert(holdings_distinct(t1, i1, j1));
        }
    }
    lemma_all_exact_single_assignment(specs, board.to_set());
    lemma_all_exact_single_assignment(specs2, board.to_set());
    lemma_tuple_equity_swap(t1, board, a, b);
    crate::engine::lemma_tuple_equity_bounds(t1, board);
    let e1 = tuple_equity(t1, board);
    let e2 = tuple_equity(t2, board);
    assert(e2 == swap_seq(e1, a, b));
    // A single assignment averages to its own equity vector.
    let list1 = assign_seqs(spec_candidates(specs), board.to_set());
    let list2 = assign_seqs(spec_candidates(specs2), board.to_set());
    assert(list1 == seq![t1] && list2 == seq![t2]);
    lemma_singleton_average(t1, board, specs.len());
    lemma_singleton_average(t2, board, specs.len());
    assert(exact_equities(list2, board, specs.len()) =~= swap_seq(
        exact_equities(list1, board, specs.len()),
        a,
        b,
    )) by {
        assert forall|k: int|
            0 <= k < specs.len() implies exact_equities(list2, board, specs.len())[k]
            == swap_seq(exact_equities(list1, board, specs.len()), a, b)[k] by {
            assert(exact_equities(list2, board, specs.len())[k] == e2[k]);
            if k == b {
                assert(swap_seq(exact_equities(list1, board, specs.len()), a, b)[k]
                    == exact_equities(list1, board, specs.len())[a]);
                assert(e2[k] == e1[a]);
            } else if k == a {
                assert(e2[k] == e1[b]);
            } else {
                assert(e2[k] == e1[k]);
            }
        }
    }
}

/// Averaging over one assignment returns that assignment's equity vector.
proof fn lemma_singleton_average(t: Seq<Combo>, board: Seq<Card>, n: nat)
    requires
        t.len() == n,
    ensures
        forall|k: int|
            0 <= k < n ==> #[trigger] exact_equities(seq![t], board, n)[k] == tuple_equity(
                t,
                board,
            )[k],
{
    let single = seq![t];
    assert(single.drop_last() =~= Seq::<Seq<Combo>>::empty());
    assert(single.last() == t);
    assert(crate::engine::equity_totals(Seq::<Seq<Combo>>::empty(), board, n)
        == crate::engine::zero_ints(n));
    assert forall|k: int|
        0 <= k < n implies #[trigger] exact_equities(single, board, n)[k] == tuple_equity(
        t,
        board,
    )[k] by {
        assert(crate::engine::equity_totals(single, board, n)[k] == crate::engine::zero_ints(n)[k]
            + tuple_equity(t, board)[k]);
        assert(exact_equities(single, board, n)[k] == crate::engine::equity_totals(
            single,
            board,
            n,
        )[k] / 1int);
        assert(crate::engine::equity_totals(single, board, n)[k] / 1int
            == crate::engine::equity_totals(single, board, n)[k]) by (nonlinear_arith);
    }
}

/// Fully known hands written as one-holding lists present the typed range
/// entry point with exactly the candidate lists of the hands themselves,
/// so both entry points pin the same enumerated equities.
pub proof fn lemma_singleton_lists_same_candidates(
    specs: Seq<HoleCardsInput>,
    pr: Seq<Vec<Vec<Card>>>,
)
    requires
        specs.len() == pr.len(),
        forall|i: int|
            0 <= i < specs.len() ==> #[trigger] specs[i] is Exact && pr[i]@.len() == 1
                && pr[i]@[0]@.len() == 2 && pr[i]@[0]@[0] == specs[i]->Exact_0.first
                && pr[i]@[0]@[1] == specs[i]->Exact_0.second,
    ensures
        spec_candidates(specs) == crate::solve::range_cands_of(pr),
{
    assert forall|i: int| 0 <= i < specs.len() implies #[trigger] spec_candidates(specs)[i]
        == crate::solve::range_cands_of(pr)[i] by {
        let h = specs[i]->Exact_0;
        assert(spec_candidates(specs)[i] == seq![h]);
        assert(crate::solve::range_cands_of(pr)[i] =~= seq![h]);
    }
    assert(spec_candidates(specs) =~= crate::solve::range_cands_of(pr));
}

/// For fully known players, the known-card list is the flat list of all
/// holdings' cards in player order.
proof fn lemma_all_exact_known(specs: Seq<HoleCardsInput>)
    requires
        all_exact(specs),
    ensures
        crate::solve::known_seq(specs).len() == 2 * specs.len(),
        forall|i: int|
            0 <= i < specs.len() ==> crate::solve::known_seq(specs)[2 * i] == (
            #[trigger] specs[i])->Exact_0.first && crate::solve::known_seq(specs)[2 * i + 1]
                == specs[i]->Exact_0.second,
    decreases specs.len(),
{
    if specs.len() > 0 {
        let dl = specs.drop_last();
        assert(forall|i: int| 0 <= i < dl.len() ==> dl[i] == #[trigger] specs[i]);
        lemma_all_exact_known(dl);
        assert(specs.last() == specs[specs.len() - 1]);
        let known = crate::solve::known_seq(specs);
        assert(known == crate::solve::known_seq(dl) + crate::solve::known_of(specs.last()));
        assert forall|i: int|
            0 <= i < specs.len() implies known[2 * i] == (#[trigger] specs[i])->Exact_0.first
            && known[2 * i + 1] == specs[i]->Exact_0.second by {
            if i < specs.len() - 1 {
                assert(known[2 * i] == crate::solve::known_seq(dl)[2 * i]);
                assert(known[2 * i + 1] == crate::solve::known_seq(dl)[2 * i + 1]);
            } else {
                assert(known[2 * i] == crate::solve::known_of(specs.last())[0]);
                assert(known[2 * i + 1] == crate::solve::known_of(specs.last())[1]);
            }
        }
    }
}

/// Pairwise distinct known cards give fully known players the card
/// uniqueness the engine's laws are stated over: no hand touches the board
/// or another hand. This closes the step from the public validation
/// clauses to [`lemma_river_exact_single_state`] and
/// [`lemma_all_exact_swap_equities`].
pub proof fn lemma_nodup_gives_disjoint(specs: Seq<HoleCardsInput>, board: Seq<Card>)
    requires
        all_exact(specs),
        (board + crate::solve::known_seq(specs)).no_duplicates(),
    ensures
        tuple_disjoint(exact_combos(specs), board.to_set()),
{
    lemma_all_exact_known(specs);
    let t = exact_combos(specs);
    let s = board + crate::solve::known_seq(specs);
    let b = board.len() as int;
    assert forall|i: int|
        0 <= i < t.len() implies !board.to_set().contains(#[trigger] t[i].first)
        && !board.to_set().contains(t[i].second) by {
        assert(s[b + 2 * i] == t[i].first);
        assert(s[b + 2 * i + 1] == t[i].second);
        if board.to_set().contains(t[i].first) {
            let j = choose|j: int| 0 <= j < board.len() && board[j] == t[i].first;
            assert(s[j] == t[i].first);
        }
        if board.to_set().contains(t[i].second) {
            let j = choose|j: int| 0 <= j < board.len() && board[j] == t[i].second;
            assert(s[j] == t[i].second);
        }
    }
    assert forall|i: int, j: int|
        0 <= i < t.len() && 0 <= j < t.len() && i != j implies #[trigger] holdings_distinct(
        t,
        i,
        j,
    ) by {
        assert(s[b + 2 * i] == t[i].first && s[b + 2 * i + 1] == t[i].second);
        assert(s[b + 2 * j] == t[j].first && s[b + 2 * j + 1] == t[j].second);
    }
    assert(tuple_disjoint_sym(t, board.to_set()));
    lemma_tuple_disjoint_sym(t, board.to_set());
}

} // verus!
