//! The exact equity engine and the deal-scoring rules shared with the
//! Monte Carlo sampler.
//!
//! A deal is scored by ranking each player's seven cards and crediting one
//! win unit to every player tying the best rank; a k-way tie thus gives
//! each winner a `1/k` share once the units are normalized. The exact
//! engine enumerates every runout of the missing board cards for a hand
//! assignment, and averages the per-assignment equity vectors over all
//! assignments.

use vstd::prelude::*;
use crate::card::{Card, Combo, card_ok, combo_ok, combos_cards, CardMarks};
use crate::combinatorics::{full_deck, combos, combinations, seqs_of};
use crate::rank::{HandRank, rank_of, rank_le, rank_cards, rank_at_most};
use crate::assign::{tuple_disjoint, combo_seqs};
use crate::types::EQUITY_SCALE;

verus! {

/// The scale as a spec integer.
pub open spec fn scale() -> int {
    EQUITY_SCALE as int
}

/// The seven (or fewer) cards a player shows down: two hole cards and the
/// full board.
pub open spec fn hand_cards(h: Combo, full_board: Seq<Card>) -> Seq<Card> {
    seq![h.first, h.second] + full_board
}

/// Every player's rank for one fully dealt board.
pub open spec fn deal_ranks(hands: Seq<Combo>, full_board: Seq<Card>) -> Seq<HandRank> {
    Seq::new(hands.len(), |i: int| rank_of(hand_cards(hands[i], full_board)))
}

/// Whether player `i` ties the best rank of the deal.
pub open spec fn is_winner(ranks: Seq<HandRank>, i: int) -> bool {
    forall|j: int| 0 <= j < ranks.len() ==> rank_le(#[trigger] ranks[j], ranks[i])
}

/// One win unit for every player tying the best rank.
pub open spec fn deal_credit(hands: Seq<Combo>, full_board: Seq<Card>) -> Seq<int> {
    Seq::new(
        hands.len(),
        |i: int|
            if is_winner(deal_ranks(hands, full_board), i) {
                1int
            } else {
                0int
            },
    )
}

/// Pointwise sum of two integer vectors.
pub open spec fn seq_add_int(a: Seq<int>, b: Seq<int>) -> Seq<int> {
    Seq::new(a.len(), |i: int| a[i] + b[i])
}

/// The all-zero integer vector.
pub open spec fn zero_ints(n: nat) -> Seq<int> {
    Seq::new(n, |i: int| 0int)
}

/// Win units accumulated over a list of runouts.
pub open spec fn wins_over(hands: Seq<Combo>, board: Seq<Card>, runouts: Seq<Seq<Card>>) -> Seq<
    int,
>
    decreases runouts.len(),
{
    if runouts.len() == 0 {
        zero_ints(hands.len())
    } else {
        seq_add_int(
            wins_over(hands, board, runouts.drop_last()),
            deal_credit(hands, board + runouts.last()),
        )
    }
}

/// The sum of an integer vector.
pub open spec fn sum_int(s: Seq<int>) -> int
    decreases s.len(),
{
    if s.len() == 0 {
        0
    } else {
        sum_int(s.drop_last()) + s.last()
    }
}

/// The predicate keeping cards outside `used`.
pub open spec fn avail_pred(used: Set<Card>) -> spec_fn(Card) -> bool {
    |c: Card| !used.contains(c)
}

/// The cards left in the deck once `used` is taken out, in deck order.
pub open spec fn residual_of(used: Set<Card>) -> Seq<Card> {
    full_deck().filter(avail_pred(used))
}

/// The cards fixed by a hand assignment and the board.
pub open spec fn deal_used(hands: Seq<Combo>, board: Seq<Card>) -> Set<Card> {
    board.to_set().union(combos_cards(hands))
}

/// The equity vector of one hand assignment, in units of the scale: win
/// units over every runout of the missing board cards, each player's share
/// scaled by the total units credited. With no units the pot is split
/// evenly.
pub open spec fn tuple_equity(hands: Seq<Combo>, board: Seq<Card>) -> Seq<int> {
    let runouts = combos(residual_of(deal_used(hands, board)), (5 - board.len()) as nat);
    let w = wins_over(hands, board, runouts);
    let tot = sum_int(w);
    if tot == 0 {
        Seq::new(hands.len(), |i: int| scale() / hands.len() as int)
    } else {
        Seq::new(hands.len(), |i: int| w[i] * scale() / tot)
    }
}

/// Per-player equity totals accumulated over a list of hand assignments.
pub open spec fn equity_totals(tuples: Seq<Seq<Combo>>, board: Seq<Card>, n: nat) -> Seq<int>
    decreases tuples.len(),
{
    if tuples.len() == 0 {
        zero_ints(n)
    } else {
        seq_add_int(
            equity_totals(tuples.drop_last(), board, n),
            tuple_equity(tuples.last(), board),
        )
    }
}

/// The averaged equity vector over a list of hand assignments.
pub open spec fn exact_equities(tuples: Seq<Seq<Combo>>, board: Seq<Card>, n: nat) -> Seq<int> {
    Seq::new(n, |i: int| equity_totals(tuples, board, n)[i] / tuples.len() as int)
}

// ---------------------------------------------------------------------
// Arithmetic facts about credits, wins, and scaled shares.
// ---------------------------------------------------------------------

/// Sums split over pointwise addition.
pub proof fn lemma_sum_add(a: Seq<int>, b: Seq<int>)
    requires
        a.len() == b.len(),
    ensures
        sum_int(seq_add_int(a, b)) == sum_int(a) + sum_int(b),
    decreases a.len(),
{
    if a.len() > 0 {
        lemma_sum_add(a.drop_last(), b.drop_last());
        assert(seq_add_int(a, b).drop_last() =~= seq_add_int(a.drop_last(), b.drop_last()));
    }
}

/// The sum of a constant vector.
pub proof fn lemma_sum_const(n: nat, v: int)
    ensures
        sum_int(Seq::new(n, |i: int| v)) == n * v,
    decreases n,
{
    if n == 0 {
    } else {
        lemma_sum_const((n - 1) as nat, v);
        assert(Seq::new(n, |i: int| v).drop_last() =~= Seq::new((n - 1) as nat, |i: int| v));
        assert(n * v == (n - 1) * v + v) by (nonlinear_arith);
    }
}

/// A nonnegative vector's elements are bounded by its sum.
pub proof fn lemma_sum_bounds(s: Seq<int>)
    requires
        forall|i: int| 0 <= i < s.len() ==> 0 <= #[trigger] s[i],
    ensures
        sum_int(s) >= 0,
        forall|i: int| 0 <= i < s.len() ==> #[trigger] s[i] <= sum_int(s),
    decreases s.len(),
{
    if s.len() > 0 {
        assert(forall|i: int|
            0 <= i < s.drop_last().len() ==> s.drop_last()[i] == #[trigger] s[i]);
        lemma_sum_bounds(s.drop_last());
        assert forall|i: int| 0 <= i < s.len() implies #[trigger] s[i] <= sum_int(s) by {
            if i < s.len() - 1 {
                assert(s.drop_last()[i] == s[i]);
            }
        }
    }
}

/// Integer division loses less than the divisor, summed over a vector:
/// `sum(x/d) * d <= sum(x) <= sum(x/d) * d + len * (d-1)`.
pub proof fn lemma_div_sum(x: Seq<int>, d: int)
    requires
        d > 0,
        forall|i: int| 0 <= i < x.len() ==> 0 <= #[trigger] x[i],
    ensures
        sum_int(Seq::new(x.len(), |i: int| x[i] / d)) * d <= sum_int(x),
        sum_int(x) <= sum_int(Seq::new(x.len(), |i: int| x[i] / d)) * d + x.len() * (d - 1),
    decreases x.len(),
{
    let q = Seq::new(x.len(), |i: int| x[i] / d);
    if x.len() == 0 {
    } else {
        let xp = x.drop_last();
        assert(forall|i: int| 0 <= i < xp.len() ==> xp[i] == #[trigger] x[i]);
        lemma_div_sum(xp, d);
        let qp = Seq::new(xp.len(), |i: int| xp[i] / d);
        assert(q.drop_last() =~= qp);
        let last = x.last();
        vstd::arithmetic::div_mod::lemma_fundamental_div_mod(last, d);
        vstd::arithmetic::div_mod::lemma_mod_bound(last, d);
        assert((q.last()) * d <= last && last <= (q.last()) * d + (d - 1)) by (nonlinear_arith)
            requires
                last == d * (last / d) + last % d,
                0 <= last % d < d,
                q.last() == last / d,
        ;
        assert(sum_int(q) == sum_int(qp) + q.last());
        assert((sum_int(qp) + q.last()) * d == sum_int(qp) * d + q.last() * d)
            by (nonlinear_arith);
        assert(xp.len() * (d - 1) + (d - 1) == x.len() * (d - 1)) by (nonlinear_arith)
            requires
                xp.len() + 1 == x.len(),
        ;
    }
}

/// Every credit is 0 or 1 and the winners' units sum to at least 1.
pub proof fn lemma_deal_credit_bounds(hands: Seq<Combo>, full_board: Seq<Card>)
    ensures
        forall|i: int|
            0 <= i < hands.len() ==> 0 <= #[trigger] deal_credit(hands, full_board)[i] <= 1,
{
}

/// Win units over runouts lie between 0 and the number of runouts.
pub proof fn lemma_wins_over_bounds(hands: Seq<Combo>, board: Seq<Card>, runouts: Seq<Seq<Card>>)
    ensures
        wins_over(hands, board, runouts).len() == hands.len(),
        forall|i: int|
            0 <= i < hands.len() ==> 0 <= #[trigger] wins_over(hands, board, runouts)[i]
                <= runouts.len(),
    decreases runouts.len(),
{
    if runouts.len() > 0 {
        lemma_wins_over_bounds(hands, board, runouts.drop_last());
    }
}

/// Bounds of one assignment's equity vector: each share lies within the
/// scale, and the shares sum to the full scale up to one unit per player.
pub proof fn lemma_tuple_equity_bounds(hands: Seq<Combo>, board: Seq<Card>)
    requires
        hands.len() >= 1,
    ensures
        tuple_equity(hands, board).len() == hands.len(),
        forall|i: int|
            0 <= i < hands.len() ==> 0 <= #[trigger] tuple_equity(hands, board)[i] <= scale(),
        scale() - hands.len() < sum_int(tuple_equity(hands, board)) <= scale(),
{
    let n = hands.len() as int;
    let runouts = combos(residual_of(deal_used(hands, board)), (5 - board.len()) as nat);
    let w = wins_over(hands, board, runouts);
    let tot = sum_int(w);
    lemma_wins_over_bounds(hands, board, runouts);
    lemma_sum_bounds(w);
    if tot == 0 {
        let e = Seq::new(hands.len(), |i: int| scale() / n);
        vstd::arithmetic::div_mod::lemma_fundamental_div_mod(scale(), n);
        vstd::arithmetic::div_mod::lemma_mod_bound(scale(), n);
        assert(0 <= scale() / n <= scale()) by (nonlinear_arith)
            requires
                scale() == n * (scale() / n) + scale() % n,
                0 <= scale() % n < n,
                n >= 1,
        ;
        lemma_sum_const(hands.len(), scale() / n);
        assert(sum_int(e) == n * (scale() / n));
        assert(scale() - n < n * (scale() / n) <= scale()) by (nonlinear_arith)
            requires
                scale() == n * (scale() / n) + scale() % n,
                0 <= scale() % n < n,
        ;
    } else {
        let x = Seq::new(hands.len(), |i: int| w[i] * scale());
        let e = Seq::new(hands.len(), |i: int| w[i] * scale() / tot);
        assert(forall|i: int| 0 <= i < x.len() ==> 0 <= #[trigger] x[i]) by {
            assert forall|i: int| 0 <= i < x.len() implies 0 <= #[trigger] x[i] by {
                assert(x[i] == w[i] * scale());
                assert(w[i] >= 0);
                assert(w[i] * scale() >= 0) by (nonlinear_arith)
                    requires
                        w[i] >= 0,
                ;
            }
        }
        lemma_div_sum(x, tot);
        assert(Seq::new(x.len(), |i: int| x[i] / tot) =~= e);
        // sum(x) == sum(w) * scale
        lemma_sum_scale(w, scale());
        assert(sum_int(x) == tot * scale()) by {
            assert(Seq::new(w.len(), |i: int| w[i] * scale()) =~= x);
        }
        assert forall|i: int| 0 <= i < hands.len() implies 0 <= #[trigger] e[i] <= scale() by {
            assert(e[i] == x[i] / tot);
            assert(w[i] <= tot);
            vstd::arithmetic::div_mod::lemma_fundamental_div_mod(x[i], tot);
            vstd::arithmetic::div_mod::lemma_mod_bound(x[i], tot);
            assert(0 <= x[i] / tot <= scale()) by (nonlinear_arith)
                requires
                    x[i] == tot * (x[i] / tot) + x[i] % tot,
                    0 <= x[i] % tot < tot,
                    x[i] == w[i] * scale(),
                    0 <= w[i] <= tot,
                    scale() > 0,
                    tot > 0,
            ;
        }
        // sum(e) * tot <= tot * scale <= sum(e) * tot + n * (tot - 1)
        assert(scale() - n < sum_int(e) <= scale()) by (nonlinear_arith)
            requires
                sum_int(e) * tot <= tot * scale(),
                tot * scale() <= sum_int(e) * tot + n * (tot - 1),
                tot > 0,
                n >= 1,
        ;
    }
}

/// Multiplying each entry scales the sum.
pub proof fn lemma_sum_scale(w: Seq<int>, f: int)
    ensures
        sum_int(Seq::new(w.len(), |i: int| w[i] * f)) == sum_int(w) * f,
    decreases w.len(),
{
    let x = Seq::new(w.len(), |i: int| w[i] * f);
    if w.len() == 0 {
        assert(sum_int(w) * f == 0) by (nonlinear_arith)
            requires
                sum_int(w) == 0,
        ;
    } else {
        lemma_sum_scale(w.drop_last(), f);
        assert(x.drop_last() =~= Seq::new(w.drop_last().len(), |i: int| w.drop_last()[i] * f));
        assert((sum_int(w.drop_last()) + w.last()) * f == sum_int(w.drop_last()) * f + w.last()
            * f) by (nonlinear_arith);
    }
}

/// Totals over assignments stay within `count * scale`, and their sum within
/// one scale-per-player of `count * scale`.
pub proof fn lemma_equity_totals_bounds(tuples: Seq<Seq<Combo>>, board: Seq<Card>, n: nat)
    requires
        n >= 1,
        forall|t: Seq<Combo>| #[trigger] tuples.contains(t) ==> t.len() == n,
    ensures
        equity_totals(tuples, board, n).len() == n,
        forall|i: int|
            0 <= i < n ==> 0 <= #[trigger] equity_totals(tuples, board, n)[i] <= tuples.len()
                * scale(),
        tuples.len() * (scale() - n) < sum_int(equity_totals(tuples, board, n)) || tuples.len()
            == 0,
        sum_int(equity_totals(tuples, board, n)) <= tuples.len() * scale(),
    decreases tuples.len(),
{
    if tuples.len() == 0 {
        lemma_sum_const(n, 0);
        assert(zero_ints(n) =~= Seq::new(n, |i: int| 0int));
    } else {
        let prefix = tuples.drop_last();
        assert(forall|t: Seq<Combo>| #[trigger] prefix.contains(t) ==> tuples.contains(t)) by {
            assert forall|t: Seq<Combo>| #[trigger] prefix.contains(t) implies tuples.contains(
                t,
            ) by {
                let k = choose|k: int| 0 <= k < prefix.len() && prefix[k] == t;
                assert(tuples[k] == t);
            }
        }
        lemma_equity_totals_bounds(prefix, board, n);
        assert(tuples.contains(tuples.last())) by {
            assert(tuples[tuples.len() - 1] == tuples.last());
        }
        lemma_tuple_equity_bounds(tuples.last(), board);
        lemma_sum_add(equity_totals(prefix, board, n), tuple_equity(tuples.last(), board));
        let k = prefix.len() as int;
        assert forall|i: int|
            0 <= i < n implies 0 <= #[trigger] equity_totals(tuples, board, n)[i] <= tuples.len()
            * scale() by {
            assert(equity_totals(tuples, board, n)[i] == equity_totals(prefix, board, n)[i]
                + tuple_equity(tuples.last(), board)[i]);
            assert(0 <= equity_totals(prefix, board, n)[i] <= k * scale());
            assert(k * scale() + scale() == (k + 1) * scale()) by (nonlinear_arith);
        }
        assert((k + 1) * (scale() - n) == k * (scale() - n) + (scale() - n)) by (nonlinear_arith);
        assert((k + 1) * scale() == k * scale() + scale()) by (nonlinear_arith);
        if k == 0 {
            assert(sum_int(equity_totals(prefix, board, n)) == 0) by {
                lemma_sum_const(n, 0);
                assert(equity_totals(prefix, board, n) =~= Seq::new(n, |i: int| 0int));
            }
        }
    }
}

// ---------------------------------------------------------------------
// Executable scoring.
// ---------------------------------------------------------------------

/// The integer view of a win-counter vector.
pub open spec fn win_view(ws: Seq<u64>) -> Seq<int> {
    Seq::new(ws.len(), |i: int| ws[i] as int)
}

/// The integer view of an equity-total vector.
pub open spec fn total_view(ts: Seq<u128>) -> Seq<int> {
    Seq::new(ts.len(), |i: int| ts[i] as int)
}

/// Whether one player's showdown cards are fit for the ranker: a
/// well-formed holding, clear of a duplicate-free, well-formed full board
/// of three to five cards, so that the hand has five to seven cards.
pub open spec fn seven_ok(h: Combo, full_board: Seq<Card>) -> bool {
    combo_ok(h) && !full_board.contains(h.first) && !full_board.contains(h.second)
        && 3 <= full_board.len() <= 5 && full_board.no_duplicates() && (forall|i: int|
        0 <= i < full_board.len() ==> card_ok(#[trigger] full_board[i]))
}

/// Ranks sorted below a fixed rank stay below it; the order is total and
/// antisymmetric.
proof fn lemma_rank_order(a: HandRank, b: HandRank)
    ensures
        rank_le(a, b) || rank_le(b, a),
        rank_le(a, b) && rank_le(b, a) ==> a == b,
{
}

/// Computes each player's rank for one fully dealt board.
#[verifier::loop_isolation(false)]
fn deal_ranks_exec(hands: &Vec<Combo>, full_board: &Vec<Card>) -> (r: Vec<HandRank>)
    requires
        forall|i: int| 0 <= i < hands@.len() ==> seven_ok(#[trigger] hands@[i], full_board@),
    ensures
        r@ == deal_ranks(hands@, full_board@),
{
    let n = hands.len();
    let mut r: Vec<HandRank> = Vec::new();
    let mut i: usize = 0;
    while i < n
        invariant
            i <= n,
            r@.len() == i,
            forall|k: int| 0 <= k < i ==> r@[k] == deal_ranks(hands@, full_board@)[k],
        decreases n - i,
    {
        let h = hands[i];
        let mut seven: Vec<Card> = Vec::new();
        seven.push(h.first);
        seven.push(h.second);
        let m = full_board.len();
        let mut j: usize = 0;
        while j < m
            invariant
                j <= m,
                seven@ == seq![h.first, h.second] + full_board@.take(j as int),
            decreases m - j,
        {
            seven.push(full_board[j]);
            proof {
                assert(seq![h.first, h.second] + full_board@.take(j + 1) =~= (seq![
                    h.first,
                    h.second,
                ] + full_board@.take(j as int)).push(full_board@[j as int]));
            }
            j = j + 1;
        }
        proof {
            assert(seven@ =~= hand_cards(h, full_board@)) by {
                assert(full_board@.take(m as int) =~= full_board@);
            }
            assert(seven@.no_duplicates()) by {
                assert(seven_ok(hands@[i as int], full_board@));
                assert(forall|k: int|
                    2 <= k < seven@.len() ==> seven@[k] == #[trigger] full_board@[k - 2]);
                assert(seven@[0] == h.first && seven@[1] == h.second);
                assert forall|a: int, b: int| 0 <= a < b < seven@.len() implies seven@[a]
                    != seven@[b] by {
                    if a >= 2 {
                        assert(full_board@[a - 2] != full_board@[b - 2]);
                    } else if b >= 2 {
                        assert(full_board@.contains(full_board@[b - 2]));
                    }
                }
            }
            assert(forall|k: int| 0 <= k < seven@.len() ==> card_ok(#[trigger] seven@[k]));
        }
        let rank = rank_cards(&seven);
        r.push(rank);
        i = i + 1;
    }
    proof {
        assert(r@ =~= deal_ranks(hands@, full_board@));
    }
    r
}

/// Scores one deal: every player tying the best rank gains one win unit.
#[verifier::loop_isolation(false)]
pub(crate) fn score_deal(hands: &Vec<Combo>, full_board: &Vec<Card>, wins: &mut Vec<u64>)
    requires
        forall|i: int| 0 <= i < hands@.len() ==> seven_ok(#[trigger] hands@[i], full_board@),
        old(wins)@.len() == hands@.len(),
        hands@.len() >= 1,
        forall|i: int| 0 <= i < old(wins)@.len() ==> #[trigger] old(wins)@[i] < u64::MAX,
    ensures
        final(wins)@.len() == hands@.len(),
        win_view(final(wins)@) == seq_add_int(
            win_view(old(wins)@),
            deal_credit(hands@, full_board@),
        ),
{
    let ranks = deal_ranks_exec(hands, full_board);
    let n = hands.len();
    // Find the best rank.
    let mut best: HandRank = ranks[0];
    let mut j: usize = 1;
    while j < n
        invariant
            1 <= j <= n,
            ranks@.len() == n,
            forall|k: int| 0 <= k < j ==> rank_le(#[trigger] ranks@[k], best),
            exists|k: int| 0 <= k < j && best == ranks@[k],
        decreases n - j,
    {
        if !rank_at_most(&ranks[j], &best) {
            proof {
                lemma_rank_order(ranks@[j as int], best);
            }
            let ghost old_best = best;
            best = ranks[j];
            proof {
                assert forall|k: int| 0 <= k < j + 1 implies rank_le(
                    #[trigger] ranks@[k],
                    best,
                ) by {
                    if k < j {
                        lemma_rank_order(ranks@[k], old_best);
                        lemma_rank_order(old_best, best);
                    }
                }
            }
        }
        j = j + 1;
    }
    // Credit everyone tying it.
    let ghost rs = deal_ranks(hands@, full_board@);
    let mut i: usize = 0;
    while i < n
        invariant
            i <= n,
            ranks@ == rs,
            wins@.len() == n,
            forall|k: int| 0 <= k < n ==> rank_le(#[trigger] rs[k], best),
            exists|k: int| 0 <= k < n && best == rs[k],
            forall|k: int| i <= k < n ==> #[trigger] wins@[k] == old(wins)@[k],
            forall|k: int|
                0 <= k < i ==> #[trigger] wins@[k] as int == old(wins)@[k] + deal_credit(
                    hands@,
                    full_board@,
                )[k],
        decreases n - i,
    {
        let tied = rank_at_most(&best, &ranks[i]);
        proof {
            lemma_rank_order(best, rs[i as int]);
            if tied {
                assert(best == rs[i as int]);
                assert(is_winner(rs, i as int));
            } else {
                if is_winner(rs, i as int) {
                    let k = choose|k: int| 0 <= k < n && best == rs[k];
                    assert(rank_le(rs[k], rs[i as int]));
                }
            }
        }
        if tied {
            let w = wins[i];
            wins.set(i, w + 1);
        }
        i = i + 1;
    }
    proof {
        assert(win_view(wins@) =~= seq_add_int(
            win_view(old(wins)@),
            deal_credit(hands@, full_board@),
        ));
    }
}

/// The residual deck: every card not marked as used, in deck order.
#[verifier::loop_isolation(false)]
pub(crate) fn residual_deck(used: &CardMarks) -> (r: Vec<Card>)
    requires
        used.wf(),
    ensures
        r@ == residual_of(used@),
        r@.no_duplicates(),
        forall|i: int| 0 <= i < r@.len() ==> card_ok(#[trigger] r@[i]) && !used@.contains(r@[i]),
{
    let deck = crate::combinatorics::all_cards();
    let mut r: Vec<Card> = Vec::new();
    let n = deck.len();
    let mut i: usize = 0;
    proof {
        crate::combinatorics::lemma_full_deck_ok();
        crate::combinatorics::lemma_full_deck_distinct();
    }
    while i < n
        invariant
            i <= n,
            deck@ == full_deck(),
            r@ == full_deck().take(i as int).filter(avail_pred(used@)),
        decreases n - i,
    {
        let c = deck[i];
        proof {
            reveal_with_fuel(Seq::<_>::filter, 2);
            assert(full_deck().take(i + 1).drop_last() =~= full_deck().take(i as int));
            assert(full_deck().take(i + 1).last() == full_deck()[i as int]);
        }
        if !used.contains(c) {
            r.push(c);
        }
        i = i + 1;
    }
    proof {
        assert(full_deck().take(n as int) =~= full_deck());
        crate::combinatorics::lemma_filter_keeps(full_deck(), avail_pred(used@));
    }
    r
}

/// Exact equity of one fully assigned deal state: enumerates every runout
/// of the missing board cards and scores each.
#[verifier::loop_isolation(false)]
pub(crate) fn tuple_equity_exec(hands: &Vec<Combo>, board: &Vec<Card>) -> (r: Vec<u64>)
    requires
        1 <= hands@.len() <= 23,
        board@.len() <= 5,
        board@.no_duplicates(),
        forall|i: int| 0 <= i < board@.len() ==> card_ok(#[trigger] board@[i]),
        forall|i: int| 0 <= i < hands@.len() ==> combo_ok(#[trigger] hands@[i]),
        tuple_disjoint(hands@, board@.to_set()),
    ensures
        r@.len() == hands@.len(),
        win_view(r@) == tuple_equity(hands@, board@),
        forall|i: int| 0 <= i < r@.len() ==> #[trigger] r@[i] <= EQUITY_SCALE,
{
    let n = hands.len();
    let mut used = CardMarks::new();
    used.insert_all(board);
    let nh = hands.len();
    let mut hi: usize = 0;
    while hi < nh
        invariant
            hi <= nh,
            used.wf(),
            used@ == board@.to_set().union(combos_cards(hands@.take(hi as int))),
        decreases nh - hi,
    {
        let h = hands[hi];
        used.insert(h.first);
        used.insert(h.second);
        proof {
            assert(hands@.take(hi + 1).drop_last() =~= hands@.take(hi as int));
            assert(hands@.take(hi + 1).last() == hands@[hi as int]);
            assert(used@ =~= board@.to_set().union(combos_cards(hands@.take(hi + 1))));
        }
        hi = hi + 1;
    }
    proof {
        assert(hands@.take(nh as int) =~= hands@);
        assert(Set::<Card>::empty().union(board@.to_set()) =~= board@.to_set());
    }
    let residual = residual_deck(&used);
    let missing = 5 - board.len();
    let runouts = combinations(&residual, missing);
    let ghost runs = combos(residual_of(deal_used(hands@, board@)), (5 - board@.len()) as nat);
    proof {
        assert(seqs_of(runouts@) == runs);
        crate::combinatorics::lemma_combos_elems(residual@, missing as nat);
    }

    // Accumulate win units over every runout.
    let mut wins: Vec<u64> = Vec::new();
    let mut z: usize = 0;
    while z < n
        invariant
            z <= n,
            wins@.len() == z,
            forall|k: int| 0 <= k < z ==> #[trigger] wins@[k] == 0,
        decreases n - z,
    {
        wins.push(0);
        z = z + 1;
    }
    let m = runouts.len();
    let mut j: usize = 0;
    proof {
        assert(win_view(wins@) =~= zero_ints(hands@.len()));
        assert(runs.take(0) =~= Seq::<Seq<Card>>::empty());
    }
    while j < m
        invariant
            j <= m,
            m == runouts@.len(),
            wins@.len() == n,
            win_view(wins@) == wins_over(hands@, board@, runs.take(j as int)),
        decreases m - j,
    {
        proof {
            lemma_wins_over_bounds(hands@, board@, runs.take(j as int));
            assert forall|k: int| 0 <= k < n implies #[trigger] wins@[k] < u64::MAX by {
                assert(win_view(wins@)[k] == wins@[k] as int);
                assert(wins@[k] as int <= j);
            }
        }
        // Build the full board for this runout.
        let runout = &runouts[j];
        let mut fb = crate::combinatorics::copy_cards(board);
        let rl = runout.len();
        let mut q: usize = 0;
        while q < rl
            invariant
                q <= rl,
                rl == runout@.len(),
                fb@ == board@ + runout@.take(q as int),
            decreases rl - q,
        {
            fb.push(runout[q]);
            proof {
                assert(board@ + runout@.take(q + 1) =~= (board@ + runout@.take(q as int)).push(
                    runout@[q as int],
                ));
            }
            q = q + 1;
        }
        proof {
            assert(fb@ =~= board@ + runout@) by {
                assert(runout@.take(rl as int) =~= runout@);
            }
            assert(board@ + Seq::<Card>::empty() =~= board@);
            assert(runs[j as int] == seqs_of(runouts@)[j as int]);
            assert(runs.contains(runout@)) by {
                assert(runs[j as int] == runout@);
            }
            assert(runout@.no_duplicates());
            assert forall|k: int|
                0 <= k < runout@.len() implies card_ok(#[trigger] runout@[k]) && !used@.contains(
                runout@[k],
            ) by {
                assert(residual@.contains(runout@[k]));
                let idx = choose|idx: int|
                    0 <= idx < residual@.len() && residual@[idx] == runout@[k];
                assert(card_ok(residual@[idx]) && !used@.contains(residual@[idx]));
            }
            assert(runout@.len() == missing);
            lemma_deal_board_ok(hands@, board@, runout@, used@);
            assert(runs.take(j + 1).drop_last() =~= runs.take(j as int));
            assert(runs.take(j + 1).last() == runs[j as int]);
            assert(runs[j as int] == runout@) by {
                assert(seqs_of(runouts@)[j as int] == runouts@[j as int]@);
            }
        }
        score_deal(hands, &fb, &mut wins);
        j = j + 1;
    }
    proof {
        assert(runs.take(m as int) =~= runs);
    }

    // Normalize the win units into equity shares.
    let ghost w = wins_over(hands@, board@, runs);
    let mut tot: u128 = 0;
    let mut i: usize = 0;
    while i < n
        invariant
            i <= n,
            wins@.len() == n,
            win_view(wins@) == w,
            tot == sum_int(w.take(i as int)),
            tot <= i * 0xffffffffffffffffu128,
        decreases n - i,
    {
        proof {
            assert(w.take(i + 1).drop_last() =~= w.take(i as int));
            assert(w.take(i + 1).last() == w[i as int]);
            assert(wins@[i as int] as int == w[i as int]);
            assert((i + 1) * 0xffffffffffffffffu128 == i * 0xffffffffffffffffu128
                + 0xffffffffffffffffu128) by (nonlinear_arith);
        }
        tot = tot + wins[i] as u128;
        i = i + 1;
    }
    proof {
        assert(w.take(n as int) =~= w);
        lemma_wins_over_bounds(hands@, board@, runs);
        lemma_sum_bounds(w);
    }
    let mut out: Vec<u64> = Vec::new();
    if tot == 0 {
        let share = EQUITY_SCALE / (n as u64);
        let mut i: usize = 0;
        while i < n
            invariant
                i <= n,
                out@.len() == i,
                n >= 1,
                share == EQUITY_SCALE / (n as u64),
                forall|k: int| 0 <= k < i ==> #[trigger] out@[k] == share,
            decreases n - i,
        {
            out.push(share);
            i = i + 1;
        }
        proof {
            assert(win_view(out@) =~= tuple_equity(hands@, board@));
            lemma_tuple_equity_bounds(hands@, board@);
        }
    } else {
        let mut i: usize = 0;
        while i < n
            invariant
                i <= n,
                out@.len() == i,
                wins@.len() == n,
                win_view(wins@) == w,
                tot == sum_int(w),
                tot > 0,
                forall|k: int|
                    0 <= k < i ==> #[trigger] out@[k] as int == w[k] * scale() / sum_int(w)
                        && out@[k] <= EQUITY_SCALE,
            decreases n - i,
        {
            let wi = wins[i] as u128;
            proof {
                assert(wi as int == w[i as int]);
                assert(w[i as int] <= sum_int(w));
                assert(wi * (EQUITY_SCALE as u128) <= 0xffffffffffffffffffffffffffffffffu128
                    && wi * (EQUITY_SCALE as u128) == w[i as int] * scale()) by (nonlinear_arith)
                    requires
                        wi as int == w[i as int],
                        0 <= wi < 0x10000000000000000u128,
                        EQUITY_SCALE == 1000000000000u64,
                ;
                vstd::arithmetic::div_mod::lemma_fundamental_div_mod(w[i as int] * scale(), tot as int);
                vstd::arithmetic::div_mod::lemma_mod_bound(w[i as int] * scale(), tot as int);
                assert(0 <= w[i as int] * scale() / (tot as int) <= scale()) by (nonlinear_arith)
                    requires
                        w[i as int] * scale() == (tot as int) * (w[i as int] * scale() / (tot as int)) + (w[i as int] * scale()) % (tot as int),
                        0 <= (w[i as int] * scale()) % (tot as int) < tot as int,
                        0 <= w[i as int] <= tot as int,
                        scale() > 0,
                        tot > 0,
                ;
            }
            let share128 = wi * (EQUITY_SCALE as u128) / tot;
            let share = share128 as u64;
            out.push(share);
            i = i + 1;
        }
        proof {
            assert(win_view(out@) =~= tuple_equity(hands@, board@));
            lemma_tuple_equity_bounds(hands@, board@);
            assert forall|i: int| 0 <= i < out@.len() implies #[trigger] out@[i]
                <= EQUITY_SCALE by {
                assert(win_view(out@)[i] == out@[i] as int);
            }
        }
    }
    out
}

/// Cards dealt to the players or the board never reappear in a runout, so
/// each full board stays duplicate-free and clear of every holding.
proof fn lemma_deal_board_ok(
    hands: Seq<Combo>,
    board: Seq<Card>,
    runout: Seq<Card>,
    used: Set<Card>,
)
    requires
        used == deal_used(hands, board),
        board.no_duplicates(),
        forall|i: int| 0 <= i < board.len() ==> card_ok(#[trigger] board[i]),
        forall|i: int| 0 <= i < hands.len() ==> combo_ok(#[trigger] hands[i]),
        tuple_disjoint(hands, board.to_set()),
        runout.no_duplicates(),
        forall|i: int|
            0 <= i < runout.len() ==> card_ok(#[trigger] runout[i]) && !used.contains(runout[i]),
        board.len() + runout.len() == 5,
    ensures
        forall|i: int| 0 <= i < hands.len() ==> seven_ok(#[trigger] hands[i], board + runout),
{
    let fb = board + runout;
    assert(fb.no_duplicates()) by {
        assert forall|a: int, b: int| 0 <= a < b < fb.len() implies fb[a] != fb[b] by {
            if a < board.len() && b >= board.len() {
                assert(fb[a] == board[a]);
                assert(fb[b] == runout[b - board.len()]);
                assert(board.to_set().contains(board[a]));
                assert(used.contains(board[a]));
            } else if a >= board.len() {
                assert(fb[a] == runout[a - board.len()] && fb[b] == runout[b - board.len()]);
            }
        }
    }
    lemma_tuple_cards_in_used(hands, board.to_set(), used);
    assert forall|i: int| 0 <= i < hands.len() implies seven_ok(#[trigger] hands[i], fb) by {
        assert(used.contains(hands[i].first) && used.contains(hands[i].second));
        assert(!fb.contains(hands[i].first)) by {
            if fb.contains(hands[i].first) {
                let k = choose|k: int| 0 <= k < fb.len() && fb[k] == hands[i].first;
                if k < board.len() {
                    assert(!board.to_set().contains(hands[i].first));
                    assert(board.contains(board[k]));
                } else {
                    assert(!used.contains(runout[k - board.len()]));
                }
            }
        }
        assert(!fb.contains(hands[i].second)) by {
            if fb.contains(hands[i].second) {
                let k = choose|k: int| 0 <= k < fb.len() && fb[k] == hands[i].second;
                if k < board.len() {
                    assert(!board.to_set().contains(hands[i].second));
                    assert(board.contains(board[k]));
                } else {
                    assert(!used.contains(runout[k - board.len()]));
                }
            }
        }
    }
}

/// Each holding's cards sit inside the deal's used set, and no holding
/// collides with the base set or another holding.
pub proof fn lemma_tuple_cards_in_used(hands: Seq<Combo>, base: Set<Card>, used: Set<Card>)
    requires
        used == base.union(combos_cards(hands)),
        tuple_disjoint(hands, base),
    ensures
        forall|i: int|
            0 <= i < hands.len() ==> used.contains(#[trigger] hands[i].first) && used.contains(
                hands[i].second,
            ) && !base.contains(hands[i].first) && !base.contains(hands[i].second),
    decreases hands.len(),
{
    if hands.len() > 0 {
        lemma_combos_cards_members(hands);
        lemma_tuple_disjoint_head(hands, base);
    }
}

/// Membership in the card set of a holding list.
proof fn lemma_combos_cards_members(hands: Seq<Combo>)
    ensures
        forall|i: int|
            0 <= i < hands.len() ==> combos_cards(hands).contains(#[trigger] hands[i].first)
                && combos_cards(hands).contains(hands[i].second),
    decreases hands.len(),
{
    if hands.len() > 0 {
        lemma_combos_cards_members(hands.drop_last());
        assert(forall|i: int|
            0 <= i < hands.len() - 1 ==> hands.drop_last()[i] == #[trigger] hands[i]);
    }
}

/// No holding of a disjoint tuple touches the base set.
proof fn lemma_tuple_disjoint_head(hands: Seq<Combo>, base: Set<Card>)
    requires
        tuple_disjoint(hands, base),
    ensures
        forall|i: int|
            0 <= i < hands.len() ==> !base.contains(#[trigger] hands[i].first) && !base.contains(
                hands[i].second,
            ),
    decreases hands.len(),
{
    if hands.len() > 0 {
        let base2 = base.insert(hands[0].first).insert(hands[0].second);
        lemma_tuple_disjoint_head(hands.drop_first(), base2);
        assert forall|i: int| 0 <= i < hands.len() implies !base.contains(
            #[trigger] hands[i].first,
        ) && !base.contains(hands[i].second) by {
            if i >= 1 {
                assert(hands.drop_first()[i - 1] == hands[i]);
                assert(!base2.contains(hands[i].first) && !base2.contains(hands[i].second));
            }
        }
    }
}

/// Bounds of the averaged equity vector: every share lies within the scale
/// and the shares sum to the full scale up to two units per player.
pub proof fn lemma_exact_equities_bounds(tuples: Seq<Seq<Combo>>, board: Seq<Card>, n: nat)
    requires
        n >= 1,
        tuples.len() >= 1,
        forall|t: Seq<Combo>| #[trigger] tuples.contains(t) ==> t.len() == n,
    ensures
        exact_equities(tuples, board, n).len() == n,
        forall|i: int| 0 <= i < n ==> 0 <= #[trigger] exact_equities(tuples, board, n)[i] <= scale(),
        scale() - 2 * n < sum_int(exact_equities(tuples, board, n)) <= scale(),
{
    let tt = tuples.len() as int;
    let totals = equity_totals(tuples, board, n);
    let e = exact_equities(tuples, board, n);
    lemma_equity_totals_bounds(tuples, board, n);
    assert forall|i: int| 0 <= i < n implies 0 <= #[trigger] e[i] <= scale() by {
        assert(e[i] == totals[i] / tt);
        vstd::arithmetic::div_mod::lemma_fundamental_div_mod(totals[i], tt);
        vstd::arithmetic::div_mod::lemma_mod_bound(totals[i], tt);
        assert(0 <= totals[i] / tt <= scale()) by (nonlinear_arith)
            requires
                totals[i] == tt * (totals[i] / tt) + totals[i] % tt,
                0 <= totals[i] % tt < tt,
                0 <= totals[i] <= tt * scale(),
                tt > 0,
                scale() > 0,
        ;
    }
    lemma_div_sum(totals, tt);
    assert(Seq::new(totals.len(), |i: int| totals[i] / tt) =~= e);
    assert(scale() - 2 * n < sum_int(e) <= scale()) by (nonlinear_arith)
        requires
            sum_int(e) * tt <= sum_int(totals),
            sum_int(totals) <= sum_int(e) * tt + n * (tt - 1),
            tt * (scale() - n as int) < sum_int(totals),
            sum_int(totals) <= tt * scale(),
            tt > 0,
            n >= 1,
    ;
}

/// The averaged exact equities over a list of hand assignments: every
/// assignment's equity vector is computed by full runout enumeration and
/// the vectors are averaged over the number of assignments.
#[verifier::loop_isolation(false)]
pub(crate) fn exact_equities_for_tuples(tuples: &Vec<Vec<Combo>>, board: &Vec<Card>, n: usize) -> (r:
    Vec<u64>)
    requires
        1 <= n <= 23,
        1 <= tuples@.len(),
        board@.len() <= 5,
        board@.no_duplicates(),
        forall|i: int| 0 <= i < board@.len() ==> card_ok(#[trigger] board@[i]),
        forall|t: Seq<Combo>| #[trigger]
            combo_seqs(tuples@).contains(t) ==> t.len() == n && tuple_disjoint(
                t,
                board@.to_set(),
            ) && (forall|k: int| 0 <= k < t.len() ==> combo_ok(#[trigger] t[k])),
    ensures
        r@.len() == n,
        win_view(r@) == exact_equities(combo_seqs(tuples@), board@, n as nat),
        forall|i: int| 0 <= i < r@.len() ==> #[trigger] r@[i] <= EQUITY_SCALE,
{
    let tn = tuples.len();
    let ghost all = combo_seqs(tuples@);
    let mut totals: Vec<u128> = Vec::new();
    let mut z: usize = 0;
    while z < n
        invariant
            z <= n,
            totals@.len() == z,
            forall|k: int| 0 <= k < z ==> #[trigger] totals@[k] == 0,
        decreases n - z,
    {
        totals.push(0);
        z = z + 1;
    }
    proof {
        assert(total_view(totals@) =~= zero_ints(n as nat));
        assert(all.take(0) =~= Seq::<Seq<Combo>>::empty());
        assert(forall|j: int| 0 <= j < all.len() ==> all[j] == #[trigger] tuples@[j]@);
    }
    let mut j: usize = 0;
    while j < tn
        invariant
            j <= tn,
            tn == tuples@.len(),
            totals@.len() == n,
            total_view(totals@) == equity_totals(all.take(j as int), board@, n as nat),
        decreases tn - j,
    {
        proof {
            assert(all.contains(all[j as int])) by {
                assert(all[j as int] == all[j as int]);
            }
            assert(tuples@[j as int]@.len() == n);
            assert(all.take(j as int).len() == j);
            assert(forall|t: Seq<Combo>| #[trigger] all.take(j as int).contains(t) ==> all.contains(
                t,
            )) by {
                assert forall|t: Seq<Combo>| #[trigger] all.take(j as int).contains(
                    t,
                ) implies all.contains(t) by {
                    let k = choose|k: int| 0 <= k < j && all.take(j as int)[k] == t;
                    assert(all[k] == t);
                }
            }
            lemma_equity_totals_bounds(all.take(j as int), board@, n as nat);
        }
        let eq = tuple_equity_exec(&tuples[j], board);
        let mut i: usize = 0;
        let ghost before = totals@;
        while i < n
            invariant
                i <= n,
                totals@.len() == n,
                eq@.len() == n,
                win_view(eq@) == tuple_equity(all[j as int], board@),
                forall|k: int| i <= k < n ==> #[trigger] totals@[k] == before[k],
                forall|k: int|
                    0 <= k < i ==> #[trigger] totals@[k] as int == before[k] + win_view(eq@)[k],
            decreases n - i,
        {
            proof {
                assert(before[i as int] as int == total_view(before)[i as int]);
                assert(0 <= total_view(before)[i as int] <= (j as int) * scale());
                assert(win_view(eq@)[i as int] == eq@[i as int] as int);
                assert(eq@[i as int] <= EQUITY_SCALE);
                assert((j as int) * scale() + scale() <= 0xffffffffffffffffffffffffffffffffu128)
                    by (nonlinear_arith)
                    requires
                        0 <= j <= 0xffffffffffffffffu128,
                        scale() == 1000000000000int,
                ;
            }
            let t = totals[i];
            totals.set(i, t + eq[i] as u128);
            i = i + 1;
        }
        proof {
            assert(all.take(j + 1).drop_last() =~= all.take(j as int));
            assert(all.take(j + 1).last() == all[j as int]);
            assert(total_view(totals@) =~= seq_add_int(
                equity_totals(all.take(j as int), board@, n as nat),
                tuple_equity(all[j as int], board@),
            ));
        }
        j = j + 1;
    }
    proof {
        assert(all.take(tn as int) =~= all);
        assert(forall|t: Seq<Combo>| #[trigger] all.contains(t) ==> t.len() == n);
        lemma_equity_totals_bounds(all, board@, n as nat);
        lemma_exact_equities_bounds(all, board@, n as nat);
    }
    let ghost totals_spec = equity_totals(all, board@, n as nat);
    let mut out: Vec<u64> = Vec::new();
    let mut i: usize = 0;
    while i < n
        invariant
            i <= n,
            out@.len() == i,
            totals@.len() == n,
            tn == tuples@.len(),
            total_view(totals@) == totals_spec,
            forall|k: int|
                0 <= k < i ==> #[trigger] out@[k] as int == totals_spec[k] / (tn as int)
                    && out@[k] <= EQUITY_SCALE,
        decreases n - i,
    {
        proof {
            assert(totals@[i as int] as int == totals_spec[i as int]);
            assert(0 <= totals_spec[i as int] <= (tn as int) * scale());
            vstd::arithmetic::div_mod::lemma_fundamental_div_mod(totals_spec[i as int], tn as int);
            vstd::arithmetic::div_mod::lemma_mod_bound(totals_spec[i as int], tn as int);
            assert(0 <= totals_spec[i as int] / (tn as int) <= scale()) by (nonlinear_arith)
                requires
                    totals_spec[i as int] == (tn as int) * (totals_spec[i as int] / (tn as int)) + totals_spec[i as int] % (tn as int),
                    0 <= totals_spec[i as int] % (tn as int) < tn as int,
                    0 <= totals_spec[i as int] <= (tn as int) * scale(),
                    tn > 0,
                    scale() > 0,
            ;
        }
        let share128 = totals[i] / (tn as u128);
        let share = share128 as u64;
        out.push(share);
        i = i + 1;
    }
    proof {
        assert(win_view(out@) =~= exact_equities(all, board@, n as nat));
    }
    out
}

} // verus!
