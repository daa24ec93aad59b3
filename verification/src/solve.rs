//! The adaptive solver: input validation, the exact/Monte-Carlo mode
//! selector, and the public equity entry points.
//!
//! The selector compares the exact cost — valid hand assignments times
//! board runouts — against the caller's iteration budget and dispatches to
//! exhaustive enumeration whenever it fits, Monte Carlo sampling otherwise.

use vstd::prelude::*;
use crate::card::{Card, Combo, card_ok, combo_ok};
use crate::types::{SnapError, EquityResult, EquityMath, EquityEstimateMode, EQUITY_SCALE};
use crate::input::{HoleCardsInput, parse_player_hand_input, parse_board_input, trimmed, player_input_ok, board_input_ok, board_input_val};
use crate::parsing::{parse_cards_ok, parse_cards_val};
use crate::assign::{specs_wf, spec_candidates, assign_seqs, count_valid_assignments_for_specs, valid_assignments_for_specs, lemma_assign_seqs_valid, lemma_spec_candidates_ok, cands_ok, hole_input_wf};
use crate::combinatorics::{binom, lemma_binom_gt, combination_count, default_iterations, lemma_binom_ratio, lemma_binom_pos};
use crate::engine::{scale, win_view, sum_int, exact_equities, exact_equities_for_tuples, lemma_exact_equities_bounds};
use crate::monte_carlo::monte_carlo_equity;
use crate::strutil::append_u64;

verus! {

/// The known hole cards a player model fixes.
pub open spec fn known_of(h: HoleCardsInput) -> Seq<Card> {
    match h {
        HoleCardsInput::Exact(combo) => seq![combo.first, combo.second],
        HoleCardsInput::Partial(c) => seq![c],
        HoleCardsInput::Range(_) => Seq::empty(),
        HoleCardsInput::Unknown => Seq::empty(),
    }
}

/// All known hole cards of the players, in player order.
pub open spec fn known_seq(specs: Seq<HoleCardsInput>) -> Seq<Card>
    decreases specs.len(),
{
    if specs.len() == 0 {
        Seq::empty()
    } else {
        known_seq(specs.drop_last()) + known_of(specs.last())
    }
}

/// The character views of the player descriptor strings.
pub open spec fn views_of(players: Seq<String>) -> Seq<Seq<char>> {
    Seq::new(players.len(), |i: int| players[i]@)
}

/// Whether a descriptor reads as a range expression: non-empty, and not a
/// plain list of card tokens.
pub open spec fn descriptor_is_range(s: Seq<char>) -> bool {
    trimmed(s).len() > 0 && !parse_cards_ok(trimmed(s))
}

/// The known hole cards a descriptor fixes: both cards of an exact hand,
/// the one card of a partial hand, none for an unknown hand or a range.
pub open spec fn descriptor_known(s: Seq<char>) -> Seq<Card> {
    let t = trimmed(s);
    if t.len() == 0 || !parse_cards_ok(t) {
        Seq::empty()
    } else {
        let cards = parse_cards_val(t);
        if 1 <= cards.len() <= 2 {
            cards
        } else {
            Seq::empty()
        }
    }
}

/// All known hole cards the descriptors fix, in player order.
pub open spec fn descriptors_known(ds: Seq<Seq<char>>) -> Seq<Card>
    decreases ds.len(),
{
    if ds.len() == 0 {
        Seq::empty()
    } else {
        descriptors_known(ds.drop_last()) + descriptor_known(ds.last())
    }
}

/// The player model a non-range descriptor parses to.
pub open spec fn descriptor_model(s: Seq<char>) -> HoleCardsInput
    recommends
        !descriptor_is_range(s),
{
    let t = trimmed(s);
    if t.len() == 0 {
        HoleCardsInput::Unknown
    } else {
        let cards = parse_cards_val(t);
        if cards.len() == 1 {
            HoleCardsInput::Partial(cards[0])
        } else {
            HoleCardsInput::Exact(Combo { first: cards[0], second: cards[1] })
        }
    }
}

/// The player models of non-range descriptors.
pub open spec fn descriptor_models(ds: Seq<Seq<char>>) -> Seq<HoleCardsInput> {
    Seq::new(ds.len(), |i: int| descriptor_model(ds[i]))
}

/// Whether every descriptor is accepted against the board.
pub open spec fn descriptors_ok(ds: Seq<Seq<char>>, board: Seq<Card>) -> bool {
    forall|i: int| 0 <= i < ds.len() ==> player_input_ok(#[trigger] ds[i], board)
}

/// Whether no descriptor is a range expression.
pub open spec fn no_range_descriptor(ds: Seq<Seq<char>>) -> bool {
    forall|i: int| 0 <= i < ds.len() ==> !descriptor_is_range(#[trigger] ds[i])
}

/// Whether string inputs pass the solver's validation: two or more
/// players, a well-formed board, every descriptor accepted against it,
/// pairwise distinct known cards, and sizes that leave a runout.
pub open spec fn inputs_admitted(ds: Seq<Seq<char>>, board_str: Seq<char>) -> bool {
    &&& ds.len() >= 2
    &&& board_input_ok(board_str)
    &&& descriptors_ok(ds, board_input_val(board_str))
    &&& (board_input_val(board_str) + descriptors_known(ds)).no_duplicates()
    &&& sizes_ok(ds.len() as int, board_input_val(board_str).len() as int)
}

/// Whether a parsed player model is the one its descriptor reads as.
pub open spec fn model_matches(spec: HoleCardsInput, s: Seq<char>) -> bool {
    match spec {
        HoleCardsInput::Unknown => trimmed(s).len() == 0,
        HoleCardsInput::Partial(c) => trimmed(s).len() > 0 && parse_cards_ok(trimmed(s))
            && parse_cards_val(trimmed(s)) == seq![c],
        HoleCardsInput::Exact(h) => trimmed(s).len() > 0 && parse_cards_ok(trimmed(s))
            && parse_cards_val(trimmed(s)) == seq![h.first, h.second],
        HoleCardsInput::Range(_) => descriptor_is_range(s),
    }
}

/// A matching model fixes exactly the descriptor's known cards.
proof fn lemma_model_known(spec: HoleCardsInput, s: Seq<char>)
    requires
        model_matches(spec, s),
    ensures
        known_of(spec) == descriptor_known(s),
{
    match spec {
        HoleCardsInput::Unknown => {
            assert(descriptor_known(s) =~= Seq::<Card>::empty());
        },
        HoleCardsInput::Partial(c) => {
            assert(descriptor_known(s) =~= seq![c]);
        },
        HoleCardsInput::Exact(h) => {
            assert(descriptor_known(s) =~= seq![h.first, h.second]);
        },
        HoleCardsInput::Range(_) => {
            assert(descriptor_known(s) =~= Seq::<Card>::empty());
        },
    }
}

/// The known cards split at any player boundary.
proof fn lemma_known_split(specs: Seq<HoleCardsInput>, j: int)
    requires
        0 <= j <= specs.len(),
    ensures
        known_seq(specs) == known_seq(specs.take(j)) + known_seq(specs.skip(j)),
    decreases specs.len(),
{
    if j == specs.len() {
        assert(specs.take(j) =~= specs);
        assert(specs.skip(j) =~= Seq::<HoleCardsInput>::empty());
        assert(known_seq(specs) =~= known_seq(specs.take(j)) + known_seq(specs.skip(j)));
    } else {
        let dl = specs.drop_last();
        lemma_known_split(dl, j);
        assert(dl.take(j) =~= specs.take(j));
        assert(dl.skip(j) =~= specs.skip(j).drop_last());
        assert(specs.skip(j).len() > 0);
        assert(specs.skip(j).last() == specs.last());
        assert(known_seq(specs.skip(j)) == known_seq(specs.skip(j).drop_last()) + known_of(
            specs.last(),
        ));
        assert(known_seq(specs) =~= known_seq(specs.take(j)) + known_seq(specs.skip(j)));
    }
}

/// The known cards of the player at `j`, set apart from the rest.
proof fn lemma_known_at(specs: Seq<HoleCardsInput>, j: int)
    requires
        0 <= j < specs.len(),
    ensures
        known_seq(specs) == known_seq(specs.take(j)) + known_of(specs[j]) + known_seq(
            specs.skip(j + 1),
        ),
{
    lemma_known_split(specs, j);
    let tail = specs.skip(j);
    lemma_known_split(tail, 1);
    assert(tail.take(1).len() == 1);
    assert(tail.take(1).drop_last() =~= Seq::<HoleCardsInput>::empty());
    assert(tail.take(1).last() == specs[j]);
    assert(known_seq(tail.take(1)) == known_seq(Seq::<HoleCardsInput>::empty()) + known_of(
        specs[j],
    ));
    assert(known_seq(tail.take(1)) =~= known_of(specs[j]));
    assert(tail.skip(1) =~= specs.skip(j + 1));
    assert(known_seq(specs) =~= known_seq(specs.take(j)) + known_of(specs[j]) + known_seq(
        specs.skip(j + 1),
    ));
}

/// A known card of player `j` that already occurs among the earlier known
/// cards (or earlier within the same holding) makes the whole known-card
/// list carry a duplicate.
proof fn lemma_dup_in_full(board: Seq<Card>, specs: Seq<HoleCardsInput>, j: int, off: int)
    requires
        0 <= j < specs.len(),
        0 <= off < known_of(specs[j]).len(),
        (board + known_seq(specs.take(j)) + known_of(specs[j]).take(off)).contains(
            known_of(specs[j])[off],
        ),
    ensures
        !(board + known_seq(specs)).no_duplicates(),
{
    lemma_known_at(specs, j);
    let c = known_of(specs[j])[off];
    let p = board + known_seq(specs.take(j)) + known_of(specs[j]).take(off);
    let full = board + known_seq(specs);
    let rest = known_of(specs[j]).skip(off) + known_seq(specs.skip(j + 1));
    assert(full =~= p + rest);
    let a = choose|a: int| 0 <= a < p.len() && p[a] == c;
    assert(full[a] == c);
    let idx1 = p.len() as int;
    assert(rest[0] == known_of(specs[j])[off]);
    assert(full[idx1] == c);
    assert(a < idx1);
}

/// Matching models fix exactly the descriptors' known cards, listwise.
proof fn lemma_models_known(specs: Seq<HoleCardsInput>, ds: Seq<Seq<char>>)
    requires
        specs.len() == ds.len(),
        forall|k: int| 0 <= k < specs.len() ==> model_matches(#[trigger] specs[k], ds[k]),
    ensures
        known_seq(specs) == descriptors_known(ds),
    decreases specs.len(),
{
    if specs.len() > 0 {
        assert(forall|k: int|
            0 <= k < specs.len() - 1 ==> specs.drop_last()[k] == #[trigger] specs[k]);
        assert(forall|k: int| 0 <= k < ds.len() - 1 ==> ds.drop_last()[k] == #[trigger] ds[k]);
        assert(forall|k: int|
            0 <= k < specs.drop_last().len() ==> model_matches(
                #[trigger] specs.drop_last()[k],
                ds.drop_last()[k],
            ));
        lemma_models_known(specs.drop_last(), ds.drop_last());
        assert(specs.last() == specs[specs.len() - 1]);
        lemma_model_known(specs.last(), ds.last());
    }
}

/// The number of board runouts per assignment: completions of the missing
/// board cards from the cards not dealt to the board or any player.
pub open spec fn runout_count(n: int, board_len: int) -> nat {
    binom((52 - board_len - 2 * n) as nat, (5 - board_len) as nat)
}

/// The number of valid hand assignments of the players against the board.
pub open spec fn assignment_count(specs: Seq<HoleCardsInput>, board: Seq<Card>) -> nat {
    assign_seqs(spec_candidates(specs), board.to_set()).len()
}

/// The largest assignment count the exact engine may take on: each
/// assignment costs one full runout enumeration, so the budget is divided
/// by the runout count.
pub open spec fn exact_assignment_limit(budget: nat, runouts: nat) -> nat
    recommends
        runouts > 0,
{
    budget / runouts
}

/// Whether the solver's validation admits the players and board sizes.
pub open spec fn sizes_ok(n: int, board_len: int) -> bool {
    board_len + 2 * n <= 52 && runout_count(n, board_len) > 0
}

/// Whether the exact engine is chosen.
pub open spec fn picks_exact(specs: Seq<HoleCardsInput>, board: Seq<Card>, budget: nat) -> bool {
    assignment_count(specs, board) <= exact_assignment_limit(
        budget,
        runout_count(specs.len() as int, board.len() as int),
    )
}

/// A small binomial over a small universe stays well below `u32::MAX`:
/// the runout count always fits.
proof fn lemma_binom_small(n: nat, k: nat)
    requires
        n <= 52,
        k <= 5,
    ensures
        binom(n, k) < 0x80000000,
{
    lemma_binom_step_bound(n, 0);
    lemma_binom_step_bound(n, 1);
    lemma_binom_step_bound(n, 2);
    lemma_binom_step_bound(n, 3);
    lemma_binom_step_bound(n, 4);
    assert(binom(n, 0) == 1);
    assert(binom(n, 1) <= 52 && binom(n, 2) <= 52 * 52 && binom(n, 3) <= 52 * 52 * 52 && binom(
        n,
        4,
    ) <= 52 * 52 * 52 * 52 && binom(n, 5) <= 52 * 52 * 52 * 52 * 52) by (nonlinear_arith)
        requires
            binom(n, 0) == 1,
            binom(n, 1) <= n * binom(n, 0),
            binom(n, 2) <= n * binom(n, 1),
            binom(n, 3) <= n * binom(n, 2),
            binom(n, 4) <= n * binom(n, 3),
            binom(n, 5) <= n * binom(n, 4),
            n <= 52,
    ;
    if k == 0 {
    } else if k == 1 {
    } else if k == 2 {
    } else if k == 3 {
    } else if k == 4 {
    } else {
        assert(k == 5);
    }
}

/// One step up in `k` multiplies the binomial by at most `n`.
proof fn lemma_binom_step_bound(n: nat, k: nat)
    ensures
        binom(n, (k + 1) as nat) <= n * binom(n, k),
{
    lemma_binom_ratio(n, k);
    if k >= n {
        lemma_binom_gt(n, (k + 1) as nat);
        assert(0 <= n * binom(n, k)) by (nonlinear_arith);
    } else {
        lemma_binom_pos(n, k);
        assert(binom(n, (k + 1) as nat) <= n * binom(n, k)) by (nonlinear_arith)
            requires
                (k + 1) * binom(n, (k + 1) as nat) == (n - k) * binom(n, k),
                0 <= k < n,
                binom(n, k) >= 0,
        ;
    }
}

/// Solves equity for parsed player models against a validated board.
///
/// The caller has already rejected duplicate known cards; this routine
/// checks the deck capacity, sizes the state space, dispatches to the
/// fitting engine, and assembles the result with its bookkeeping.
#[verifier::loop_isolation(false)]
pub(crate) fn solve_specs(specs: &Vec<HoleCardsInput>, board: &Vec<Card>, budget: usize) -> (r:
    Result<EquityResult, SnapError>)
    requires
        specs@.len() >= 2,
        specs_wf(specs@),
        board@.len() <= 5,
        board@.no_duplicates(),
        forall|i: int| 0 <= i < board@.len() ==> card_ok(#[trigger] board@[i]),
        budget >= 1,
    ensures
        ({
            let n = specs@.len() as int;
            let rc = runout_count(n, board@.len() as int);
            let cnt = assignment_count(specs@, board@);
            let lim = exact_assignment_limit(budget as nat, rc);
            &&& (board@.len() + 2 * n > 52 ==> r is Err && r->Err_0 matches SnapError::InvalidHand(
                _,
            ))
            &&& (board@.len() + 2 * n <= 52 && rc == 0 ==> r is Err
                && r->Err_0 matches SnapError::InvalidHand(_))
            &&& (sizes_ok(n, board@.len() as int) && cnt == 0 ==> r is Err
                && r->Err_0 matches SnapError::InvalidRange(_))
            &&& (sizes_ok(n, board@.len() as int) && cnt > 0 && cnt <= lim ==> r is Ok
                && r->Ok_0.mode == EquityEstimateMode::ExactEnumeration)
            &&& (r is Ok && r->Ok_0.mode == EquityEstimateMode::ExactEnumeration ==> win_view(
                r->Ok_0.equities@,
            ) == exact_equities(
                assign_seqs(spec_candidates(specs@), board@.to_set()),
                board@,
                specs@.len(),
            ) && r->Ok_0.samples == cnt * rc && cnt * rc <= budget)
            &&& (sizes_ok(n, board@.len() as int) && cnt > lim ==> (r is Ok
                && r->Ok_0.mode == EquityEstimateMode::MonteCarlo && 1 <= r->Ok_0.samples <= budget)
                || (r is Err && r->Err_0 matches SnapError::InvalidRange(_)))
            &&& (r is Ok ==> sizes_ok(n, board@.len() as int) && cnt > 0 && {
                let res = r->Ok_0;
                &&& res.samples >= 1
                &&& res.equities@.len() == n
                &&& forall|i: int|
                    0 <= i < res.equities@.len() ==> #[trigger] res.equities@[i] <= EQUITY_SCALE
                &&& scale() - 2 * n < sum_int(win_view(res.equities@)) <= scale()
                &&& res.math.iteration_budget == budget
                &&& res.math.board_runout_combinations == rc
                &&& (res.math.assignment_combinations as int == if cnt >= lim + 1 {
                    lim + 1int
                } else {
                    cnt as int
                })
                &&& res.math.total_states == res.math.assignment_combinations * (rc as u128)
            })
        }),
{
    let n = specs.len();
    if n > 26 || board.len() + 2 * n > 52 {
        return Err(
            SnapError::InvalidHand(
                String::from_str("Too many players/cards for a standard 52-card deck"),
            ),
        );
    }
    let missing = 5 - board.len();
    let free = 52 - board.len() - 2 * n;
    proof {
        lemma_binom_small(free as nat, missing as nat);
    }
    let runouts = combination_count(free, missing);
    proof {
        assert(runouts == runout_count(specs@.len() as int, board@.len() as int));
    }
    if runouts == 0 {
        return Err(
            SnapError::InvalidHand(String::from_str("No possible board runouts for current inputs")),
        );
    }
    proof {
        // A positive runout count bounds the table at 23 players.
        if free < missing {
            lemma_binom_gt(free as nat, missing as nat);
        }
        assert(n <= 23);
    }

    let limit: u128 = (budget as u128) / (runouts as u128);
    let counted = count_valid_assignments_for_specs(specs, board, Some(limit + 1));
    let ghost cnt = assignment_count(specs@, board@);
    let ghost lim = exact_assignment_limit(budget as nat, runouts as nat);
    proof {
        assert(limit == lim);
    }

    if counted == 0 {
        // Tell apart the range-only path for its own wording.
        let mut all_static = true;
        let mut i: usize = 0;
        while i < n
            invariant
                i <= n,
            decreases n - i,
        {
            match &specs[i] {
                HoleCardsInput::Exact(_) => {},
                HoleCardsInput::Range(_) => {},
                _ => {
                    all_static = false;
                },
            }
            i = i + 1;
        }
        if all_static {
            return Err(
                SnapError::InvalidRange(
                    String::from_str(
                        "No valid range combinations available after card collision checks",
                    ),
                ),
            );
        }
        return Err(
            SnapError::InvalidRange(
                String::from_str("No valid hand assignments available after card collision checks"),
            ),
        );
    }

    proof {
        assert(counted * (runouts as u128) <= 0xffffffffffffffffffffffffffffffffu128)
            by (nonlinear_arith)
            requires
                counted <= 0x1ffffffffffffffffu128,
                runouts < 0x80000000u128,
        ;
    }
    let math = EquityMath {
        iteration_budget: budget,
        assignment_combinations: counted,
        board_runout_combinations: runouts as u128,
        total_states: counted * (runouts as u128),
    };

    if counted <= limit {
        // Exact enumeration fits the budget.
        let tuples = valid_assignments_for_specs(specs, board);
        proof {
            assert(crate::assign::combo_seqs(tuples@) == assign_seqs(
                spec_candidates(specs@),
                board@.to_set(),
            ));
            assert(tuples@.len() == cnt);
            assert(counted == cnt);
            lemma_spec_candidates_ok(specs@);
            lemma_assign_seqs_valid(spec_candidates(specs@), board@.to_set());
            assert forall|t: Seq<Combo>| #[trigger]
                crate::assign::combo_seqs(tuples@).contains(t) implies t.len() == n
                && crate::assign::tuple_disjoint(t, board@.to_set()) && (forall|k: int|
                0 <= k < t.len() ==> combo_ok(#[trigger] t[k])) by {
                assert(assign_seqs(spec_candidates(specs@), board@.to_set()).contains(t));
                assert(spec_candidates(specs@).len() == n);
                assert forall|k: int| 0 <= k < t.len() implies combo_ok(#[trigger] t[k]) by {
                    assert(spec_candidates(specs@)[k].contains(t[k]));
                    let j = choose|j: int|
                        0 <= j < spec_candidates(specs@)[k].len() && spec_candidates(specs@)[k][j]
                            == t[k];
                }
            }
        }
        let equities = exact_equities_for_tuples(&tuples, board, n);
        proof {
            lemma_exact_equities_bounds(
                assign_seqs(spec_candidates(specs@), board@.to_set()),
                board@,
                specs@.len(),
            );
            // counted <= budget / runouts, so the exact state count fits.
            assert((budget as u128) / (runouts as u128) * (runouts as u128) <= budget as u128) by {
                vstd::arithmetic::div_mod::lemma_fundamental_div_mod(budget as int, runouts as int);
                vstd::arithmetic::div_mod::lemma_mod_bound(budget as int, runouts as int);
            }
            assert(counted * (runouts as u128) <= budget) by (nonlinear_arith)
                requires
                    counted <= (budget as u128) / (runouts as u128),
                    (budget as u128) / (runouts as u128) * (runouts as u128) <= budget as u128,
                    runouts > 0,
                    counted >= 0,
            ;
        }
        proof {
            assert(counted * (runouts as u128) >= 1) by (nonlinear_arith)
                requires
                    counted >= 1,
                    runouts >= 1,
            ;
        }
        let samples = (counted * (runouts as u128)) as usize;
        return Ok(
            EquityResult { equities, mode: EquityEstimateMode::ExactEnumeration, samples, math },
        );
    }

    match monte_carlo_equity(specs, board, budget) {
        Ok((equities, samples)) => Ok(
            EquityResult { equities, mode: EquityEstimateMode::MonteCarlo, samples, math },
        ),
        Err(e) => Err(e),
    }
}

/// Calculates player equities from string inputs and returns computation
/// metadata beside them.
///
/// Each player is `""` (unknown), one card, two cards, or a range
/// expression; the board is empty, a flop, a turn, or a river. The solver
/// enumerates exactly when the state space fits the iteration budget and
/// samples otherwise. Equities are scaled so [`EQUITY_SCALE`] is 100%.
#[verifier::loop_isolation(false)]
pub fn calculate_equity_with_math(player_hands: &Vec<String>, board: &str, iterations: u32) -> (r:
    Result<EquityResult, SnapError>)
    ensures
        ({
            let ds = views_of(player_hands@);
            let bval = board_input_val(board@);
            let n = player_hands@.len() as int;
            &&& (n < 2 ==> r is Err && r->Err_0 matches SnapError::InvalidHand(_))
            &&& (n >= 2 && !board_input_ok(board@) ==> r is Err)
            &&& (n >= 2 && board_input_ok(board@) && !descriptors_ok(ds, bval) ==> r is Err)
            &&& (n >= 2 && board_input_ok(board@) && descriptors_ok(ds, bval) && !(bval
                + descriptors_known(ds)).no_duplicates() ==> r is Err
                && r->Err_0 matches SnapError::InvalidHand(_))
            &&& (n >= 2 && board_input_ok(board@) && descriptors_ok(ds, bval) && (bval
                + descriptors_known(ds)).no_duplicates() && bval.len() + 2 * n > 52 ==> r is Err
                && r->Err_0 matches SnapError::InvalidHand(_))
            &&& (n >= 2 && board_input_ok(board@) && descriptors_ok(ds, bval) && (bval
                + descriptors_known(ds)).no_duplicates() && bval.len() + 2 * n <= 52
                && runout_count(n, bval.len() as int) == 0 ==> r is Err
                && r->Err_0 matches SnapError::InvalidHand(_))
            &&& (inputs_admitted(ds, board@) ==> r is Ok || r->Err_0
                matches SnapError::InvalidRange(_))
            &&& (inputs_admitted(ds, board@) && no_range_descriptor(ds) ==> {
                let models = descriptor_models(ds);
                let cnt = assignment_count(models, bval);
                let rc = runout_count(n, bval.len() as int);
                let lim = exact_assignment_limit(
                    crate::combinatorics::default_iterations_spec(iterations) as nat,
                    rc,
                );
                &&& (cnt == 0 ==> r is Err && r->Err_0 matches SnapError::InvalidRange(_))
                &&& (0 < cnt <= lim ==> r is Ok && r->Ok_0.mode
                    == EquityEstimateMode::ExactEnumeration)
                &&& (r is Ok ==> (r->Ok_0.mode == EquityEstimateMode::ExactEnumeration <==> cnt
                    <= lim))
                &&& (r is Ok && r->Ok_0.mode == EquityEstimateMode::ExactEnumeration
                    ==> win_view(r->Ok_0.equities@) == exact_equities(
                    assign_seqs(spec_candidates(models), bval.to_set()),
                    bval,
                    player_hands@.len(),
                ) && r->Ok_0.samples == cnt * rc)
                &&& (r is Ok ==> r->Ok_0.math.assignment_combinations as int == (if cnt >= lim
                    + 1 {
                    lim + 1int
                } else {
                    cnt as int
                }) && r->Ok_0.math.total_states == r->Ok_0.math.assignment_combinations * (
                rc as u128))
            })
            &&& (r is Ok ==> inputs_admitted(ds, board@) && {
                let res = r->Ok_0;
                &&& res.equities@.len() == n
                &&& res.samples >= 1
                &&& forall|i: int|
                    0 <= i < res.equities@.len() ==> #[trigger] res.equities@[i] <= EQUITY_SCALE
                &&& scale() - 2 * n < sum_int(win_view(res.equities@)) <= scale()
                &&& res.math.iteration_budget == crate::combinatorics::default_iterations_spec(
                    iterations,
                )
                &&& res.math.board_runout_combinations == runout_count(n, bval.len() as int)
            })
        }),
{
    if player_hands.len() < 2 {
        return Err(SnapError::InvalidHand(String::from_str("Need at least 2 players")));
    }
    let parsed_board = match parse_board_input(board) {
        Ok(cards) => cards,
        Err(e) => {
            return Err(e);
        },
    };
    let ghost board_seq = parsed_board@;
    let ghost ds = views_of(player_hands@);

    // Parse every player descriptor.
    let mut specs: Vec<HoleCardsInput> = Vec::new();
    let np = player_hands.len();
    let mut i: usize = 0;
    while i < np
        invariant
            i <= np,
            specs@.len() == i,
            specs_wf(specs@),
            forall|k: int| 0 <= k < i ==> player_input_ok(#[trigger] player_hands@[k]@, board_seq),
            forall|k: int| 0 <= k < i ==> model_matches(#[trigger] specs@[k], player_hands@[k]@),
        decreases np - i,
    {
        let spec = match parse_player_hand_input(player_hands[i].as_str(), &parsed_board) {
            Ok(spec) => spec,
            Err(e) => {
                proof {
                    assert(ds[i as int] == player_hands@[i as int]@);
                    assert(!descriptors_ok(ds, board_seq));
                    assert(board_input_val(board@) == parsed_board@);
                }
                return Err(e);
            },
        };
        let ghost spec_g = spec;
        let ghost prev = specs@;
        specs.push(spec);
        proof {
            assert(specs@.drop_last() =~= prev);
            assert(specs@.last() == spec_g);
            assert forall|k: int| 0 <= k < i + 1 implies model_matches(
                #[trigger] specs@[k],
                player_hands@[k]@,
            ) by {
                if k < i {
                    assert(specs@[k] == prev[k]);
                }
            }
        }
        i = i + 1;
    }
    proof {
        assert(board_input_val(board@) == parsed_board@);
        assert forall|k: int| 0 <= k < ds.len() implies player_input_ok(
            #[trigger] ds[k],
            board_seq,
        ) by {
            assert(ds[k] == player_hands@[k]@);
        }
        assert(descriptors_ok(ds, board_seq));
        assert forall|k: int| 0 <= k < specs@.len() implies model_matches(
            #[trigger] specs@[k],
            ds[k],
        ) by {
            assert(ds[k] == player_hands@[k]@);
        }
        lemma_models_known(specs@, ds);
        if no_range_descriptor(ds) {
            assert forall|k: int| 0 <= k < specs@.len() implies #[trigger] specs@[k]
                == descriptor_models(ds)[k] by {
                assert(model_matches(specs@[k], ds[k]));
                assert(!descriptor_is_range(ds[k]));
                match specs@[k] {
                    HoleCardsInput::Unknown => {},
                    HoleCardsInput::Partial(c) => {
                        assert(parse_cards_val(trimmed(ds[k]))[0] == c);
                    },
                    HoleCardsInput::Exact(h) => {
                        assert(parse_cards_val(trimmed(ds[k]))[0] == h.first);
                        assert(parse_cards_val(trimmed(ds[k]))[1] == h.second);
                    },
                    HoleCardsInput::Range(_) => {
                        assert(false);
                    },
                }
            }
            assert(specs@ =~= descriptor_models(ds));
        }
    }

    // Reject duplicate known cards across the board and all players.
    let mut fixed = crate::card::CardMarks::new();
    fixed.insert_all(&parsed_board);
    let mut j: usize = 0;
    proof {
        assert(specs@.take(0) =~= Seq::<HoleCardsInput>::empty());
        assert(board_seq + known_seq(specs@.take(0)) =~= board_seq);
    }
    while j < np
        invariant
            j <= np,
            fixed.wf(),
            fixed@ == (board_seq + known_seq(specs@.take(j as int))).to_set(),
            (board_seq + known_seq(specs@.take(j as int))).no_duplicates(),
        decreases np - j,
    {
        let ghost s0 = board_seq + known_seq(specs@.take(j as int));
        match &specs[j] {
            HoleCardsInput::Exact(h) => {
                proof {
                    assert(known_of(specs@[j as int]) == seq![h.first, h.second]);
                    assert(known_of(specs@[j as int]).take(0) =~= Seq::<Card>::empty());
                    assert(s0 + known_of(specs@[j as int]).take(0) =~= s0);
                    assert(known_of(specs@[j as int]).take(1) =~= seq![h.first]);
                    assert(s0 + known_of(specs@[j as int]).take(1) =~= s0.push(h.first));
                }
                if fixed.contains(h.first) {
                    proof {
                        lemma_dup_in_full(board_seq, specs@, j as int, 0);
                    }
                    return Err(duplicate_known_card_error(j));
                }
                proof {
                    assert(!s0.contains(h.first));
                    lemma_push_keeps_nodup(s0, h.first);
                    s0.lemma_push_to_set_commute(h.first);
                }
                fixed.insert(h.first);
                if fixed.contains(h.second) {
                    proof {
                        assert(s0.push(h.first).contains(h.second));
                        lemma_dup_in_full(board_seq, specs@, j as int, 1);
                    }
                    return Err(duplicate_known_card_error(j));
                }
                proof {
                    assert(!s0.push(h.first).contains(h.second));
                    lemma_push_keeps_nodup(s0.push(h.first), h.second);
                    s0.push(h.first).lemma_push_to_set_commute(h.second);
                }
                fixed.insert(h.second);
            },
            HoleCardsInput::Partial(c) => {
                proof {
                    assert(known_of(specs@[j as int]) == seq![*c]);
                    assert(known_of(specs@[j as int]).take(0) =~= Seq::<Card>::empty());
                    assert(s0 + known_of(specs@[j as int]).take(0) =~= s0);
                }
                if fixed.contains(*c) {
                    proof {
                        lemma_dup_in_full(board_seq, specs@, j as int, 0);
                    }
                    return Err(duplicate_known_card_error(j));
                }
                proof {
                    assert(!s0.contains(*c));
                    lemma_push_keeps_nodup(s0, *c);
                    s0.lemma_push_to_set_commute(*c);
                }
                fixed.insert(*c);
            },
            _ => {},
        }
        proof {
            assert(specs@.take(j + 1).drop_last() =~= specs@.take(j as int));
            assert(specs@.take(j + 1).last() == specs@[j as int]);
            assert(known_seq(specs@.take(j + 1)) == known_seq(specs@.take(j as int)) + known_of(
                specs@[j as int],
            ));
            match specs@[j as int] {
                HoleCardsInput::Exact(h) => {
                    assert((board_seq + known_seq(specs@.take(j + 1))) =~= s0.push(h.first).push(
                        h.second,
                    ));
                    assert(fixed@ =~= (board_seq + known_seq(specs@.take(j + 1))).to_set());
                },
                HoleCardsInput::Partial(c) => {
                    assert((board_seq + known_seq(specs@.take(j + 1))) =~= s0.push(c));
                    assert(fixed@ =~= (board_seq + known_seq(specs@.take(j + 1))).to_set());
                },
                _ => {
                    assert(board_seq + known_seq(specs@.take(j + 1)) =~= s0);
                    assert(fixed@ =~= (board_seq + known_seq(specs@.take(j + 1))).to_set());
                },
            }
        }
        j = j + 1;
    }
    proof {
        assert(specs@.take(np as int) =~= specs@);
    }
    let budget = default_iterations(iterations);
    solve_specs(&specs, &parsed_board, budget)
}

/// Appending a fresh element keeps a sequence duplicate-free.
proof fn lemma_push_keeps_nodup(s: Seq<Card>, x: Card)
    requires
        s.no_duplicates(),
        !s.contains(x),
    ensures
        s.push(x).no_duplicates(),
{
    assert forall|a: int, b: int|
        0 <= a < s.push(x).len() && 0 <= b < s.push(x).len() && a != b implies s.push(x)[a]
        != s.push(x)[b] by {
        if a < s.len() && b < s.len() {
        } else if a < s.len() {
            assert(s.push(x)[a] == s[a]);
            assert(s.contains(s[a]));
        } else if b < s.len() {
            assert(s.push(x)[b] == s[b]);
            assert(s.contains(s[b]));
        }
    }
}

/// The error for a duplicated known card.
fn duplicate_known_card_error(i: usize) -> (r: SnapError)
    requires
        i < usize::MAX,
    ensures
        r matches SnapError::InvalidHand(_),
{
    let mut m = String::from_str("Duplicate card detected for player ");
    append_u64(&mut m, (i + 1) as u64);
    SnapError::InvalidHand(m)
}

/// What the string entry points that return a bare equity vector promise:
/// validation errors of each kind exactly where the solver rejects the
/// inputs, success or a range-kind error once they are admitted, and for
/// range-free inputs within the exact budget the enumerated model value.
pub open spec fn equities_contract(
    r: Result<Vec<u64>, SnapError>,
    players: Seq<String>,
    board_str: Seq<char>,
    iterations: u32,
) -> bool {
    let ds = views_of(players);
    let bval = board_input_val(board_str);
    let n = players.len() as int;
    &&& (n < 2 ==> r is Err && r->Err_0 matches SnapError::InvalidHand(_))
    &&& (n >= 2 && !board_input_ok(board_str) ==> r is Err)
    &&& (n >= 2 && board_input_ok(board_str) && !descriptors_ok(ds, bval) ==> r is Err)
    &&& (n >= 2 && board_input_ok(board_str) && descriptors_ok(ds, bval) && !(bval
        + descriptors_known(ds)).no_duplicates() ==> r is Err
        && r->Err_0 matches SnapError::InvalidHand(_))
    &&& (n >= 2 && board_input_ok(board_str) && descriptors_ok(ds, bval) && (bval
        + descriptors_known(ds)).no_duplicates() && !sizes_ok(n, bval.len() as int) ==> r is Err
        && r->Err_0 matches SnapError::InvalidHand(_))
    &&& (inputs_admitted(ds, board_str) ==> r is Ok || r->Err_0
        matches SnapError::InvalidRange(_))
    &&& (inputs_admitted(ds, board_str) && no_range_descriptor(ds) ==> {
        let models = descriptor_models(ds);
        let cnt = assignment_count(models, bval);
        let lim = exact_assignment_limit(
            crate::combinatorics::default_iterations_spec(iterations) as nat,
            runout_count(n, bval.len() as int),
        );
        &&& (cnt == 0 ==> r is Err && r->Err_0 matches SnapError::InvalidRange(_))
        &&& (0 < cnt <= lim ==> r is Ok && win_view(r->Ok_0@) == exact_equities(
            assign_seqs(spec_candidates(models), bval.to_set()),
            bval,
            players.len(),
        ))
    })
    &&& (r is Ok ==> inputs_admitted(ds, board_str) && {
        &&& r->Ok_0@.len() == n
        &&& forall|i: int| 0 <= i < r->Ok_0@.len() ==> #[trigger] r->Ok_0@[i] <= EQUITY_SCALE
        &&& scale() - 2 * n < sum_int(win_view(r->Ok_0@)) <= scale()
    })
}

/// Calculates player equities from string inputs.
///
/// The same solver as [`calculate_equity_with_math`], returning only the
/// per-player equities in units of [`EQUITY_SCALE`] = 100%.
pub fn calculate_equity(player_hands: &Vec<String>, board: &str, iterations: u32) -> (r: Result<
    Vec<u64>,
    SnapError,
>)
    ensures
        equities_contract(r, player_hands@, board@, iterations),
{
    match calculate_equity_with_math(player_hands, board, iterations) {
        Ok(res) => Ok(res.equities),
        Err(e) => Err(e),
    }
}

/// Alias for [`calculate_equity`], kept for range-oriented call sites.
pub fn calculate_equity_with_ranges(player_inputs: &Vec<String>, board: &str, iterations: u32) -> (
    r: Result<Vec<u64>, SnapError>)
    ensures
        equities_contract(r, player_inputs@, board@, iterations),
{
    calculate_equity(player_inputs, board, iterations)
}

/// Whether a typed board is acceptable: 0, 3, 4, or 5 valid, pairwise
/// distinct cards.
pub open spec fn typed_board_ok(board: Seq<Card>) -> bool {
    &&& board.len() == 0 || board.len() == 3 || board.len() == 4 || board.len() == 5
    &&& board.no_duplicates()
    &&& forall|i: int| 0 <= i < board.len() ==> card_ok(#[trigger] board[i])
}

/// Whether holding `h` of a list is acceptable: two well-formed, distinct
/// cards.
pub open spec fn holding_ok(range: Seq<Vec<Card>>, h: int) -> bool {
    range[h]@.len() == 2 && card_ok(range[h]@[0]) && card_ok(range[h]@[1]) && range[h]@[0]
        != range[h]@[1]
}

/// Whether one holding list is acceptable: non-empty, every holding two
/// well-formed, distinct cards.
pub open spec fn range_entry_ok(range: Seq<Vec<Card>>) -> bool {
    range.len() > 0 && forall|h: int| 0 <= h < range.len() ==> #[trigger] holding_ok(range, h)
}

/// Whether every player's holding list is acceptable.
pub open spec fn ranges_ok(pr: Seq<Vec<Vec<Card>>>) -> bool {
    forall|i: int| 0 <= i < pr.len() ==> range_entry_ok(#[trigger] pr[i]@)
}

/// The candidate holding lists a typed range input stands for.
pub open spec fn range_cands_of(pr: Seq<Vec<Vec<Card>>>) -> Seq<Seq<Combo>> {
    Seq::new(
        pr.len(),
        |i: int|
            Seq::new(
                pr[i]@.len(),
                |h: int| Combo { first: pr[i]@[h]@[0], second: pr[i]@[h]@[1] },
            ),
    )
}

/// Players that are all ranges fix no known cards.
proof fn lemma_known_all_ranges(specs: Seq<HoleCardsInput>)
    requires
        forall|i: int| 0 <= i < specs.len() ==> #[trigger] specs[i] is Range,
    ensures
        known_seq(specs) == Seq::<Card>::empty(),
    decreases specs.len(),
{
    if specs.len() > 0 {
        assert(forall|i: int|
            0 <= i < specs.len() - 1 ==> specs.drop_last()[i] == #[trigger] specs[i]);
        lemma_known_all_ranges(specs.drop_last());
        assert(specs.last() == specs[specs.len() - 1]);
        assert(known_seq(specs) =~= Seq::<Card>::empty());
    }
}

/// Calculates player equities from explicit per-player holding lists.
///
/// Every inner list is one candidate holding of two cards; a single-entry
/// list is a fully known hand. Collisions against the board and between
/// players are resolved by the assignment enumerator, and a player whose
/// whole list collides away makes the inputs unsolvable.
#[verifier::loop_isolation(false)]
pub fn calculate_equity_from_ranges(
    player_ranges: &Vec<Vec<Vec<Card>>>,
    board: &Vec<Card>,
    iterations: u32,
) -> (r: Result<Vec<u64>, SnapError>)
    ensures
        ({
            let n = player_ranges@.len() as int;
            let cands = range_cands_of(player_ranges@);
            &&& (n < 2 ==> r is Err && r->Err_0 matches SnapError::InvalidHand(_))
            &&& (n >= 2 && !typed_board_ok(board@) ==> r is Err
                && r->Err_0 matches SnapError::InvalidHand(_))
            &&& (n >= 2 && typed_board_ok(board@) && !ranges_ok(player_ranges@) ==> r is Err
                && r->Err_0 matches SnapError::InvalidRange(_))
            &&& (n >= 2 && typed_board_ok(board@) && ranges_ok(player_ranges@) && !sizes_ok(
                n,
                board@.len() as int,
            ) ==> r is Err && r->Err_0 matches SnapError::InvalidHand(_))
            &&& (n >= 2 && typed_board_ok(board@) && ranges_ok(player_ranges@) && sizes_ok(
                n,
                board@.len() as int,
            ) ==> {
                let cnt = assign_seqs(cands, board@.to_set()).len();
                let lim = exact_assignment_limit(
                    crate::combinatorics::default_iterations_spec(iterations) as nat,
                    runout_count(n, board@.len() as int),
                );
                &&& (cnt == 0 ==> r is Err && r->Err_0 matches SnapError::InvalidRange(_))
                &&& (0 < cnt <= lim ==> r is Ok && win_view(r->Ok_0@) == exact_equities(
                    assign_seqs(cands, board@.to_set()),
                    board@,
                    player_ranges@.len(),
                ))
                &&& (cnt > lim ==> r is Ok || r->Err_0 matches SnapError::InvalidRange(_))
            })
            &&& (r is Ok ==> n >= 2 && typed_board_ok(board@) && ranges_ok(player_ranges@)
                && sizes_ok(n, board@.len() as int) && {
                &&& r->Ok_0@.len() == n
                &&& forall|i: int|
                    0 <= i < r->Ok_0@.len() ==> #[trigger] r->Ok_0@[i] <= EQUITY_SCALE
                &&& scale() - 2 * n < sum_int(win_view(r->Ok_0@)) <= scale()
            })
        }),
{
    if player_ranges.len() < 2 {
        return Err(SnapError::InvalidHand(String::from_str("Need at least 2 players")));
    }
    let nb = board.len();
    if !(nb == 0 || nb == 3 || nb == 4 || nb == 5) {
        let mut m = String::from_str("Board must have 0, 3, 4, or 5 cards, got ");
        append_u64(&mut m, nb as u64);
        return Err(SnapError::InvalidHand(m));
    }
    // Board cards must be valid and pairwise distinct.
    let mut bi: usize = 0;
    while bi < nb
        invariant
            bi <= nb,
            forall|k: int| 0 <= k < bi ==> card_ok(#[trigger] board@[k]),
            forall|a: int, b: int| 0 <= a < b < bi ==> board@[a] != board@[b],
        decreases nb - bi,
    {
        let c = board[bi];
        if c.value >= 13 || c.suit >= 4 {
            return Err(SnapError::InvalidHand(String::from_str("Invalid board card")));
        }
        let mut bj: usize = 0;
        while bj < bi
            invariant
                bj <= bi < nb,
                c == board@[bi as int],
                forall|k: int| 0 <= k < bj ==> board@[k] != c,
            decreases bi - bj,
        {
            if board[bj].value == c.value && board[bj].suit == c.suit {
                proof {
                    assert(board@[bj as int] == board@[bi as int]);
                    assert(!board@.no_duplicates());
                }
                return Err(SnapError::InvalidHand(String::from_str("Duplicate card detected")));
            }
            bj = bj + 1;
        }
        bi = bi + 1;
    }
    proof {
        assert forall|a: int, b: int|
            0 <= a < board@.len() && 0 <= b < board@.len() && a != b implies board@[a]
            != board@[b] by {
            if a < b {
            } else {
                assert(board@[b] != board@[a]);
            }
        }
        assert(board@.no_duplicates());
        assert(typed_board_ok(board@));
    }

    // Validate and normalize every range.
    let np = player_ranges.len();
    let mut specs: Vec<HoleCardsInput> = Vec::new();
    let mut p: usize = 0;
    while p < np
        invariant
            p <= np,
            specs@.len() == p,
            specs_wf(specs@),
            forall|k: int| 0 <= k < p ==> range_entry_ok(#[trigger] player_ranges@[k]@),
            forall|k: int|
                0 <= k < p ==> #[trigger] specs@[k] is Range && specs@[k]->Range_0@
                    == range_cands_of(player_ranges@)[k],
        decreases np - p,
    {
        let range = &player_ranges[p];
        if range.len() == 0 {
            let mut m = String::from_str("Player ");
            append_u64(&mut m, (p + 1) as u64);
            m.append(" range cannot be empty");
            proof {
                assert(!range_entry_ok(player_ranges@[p as int]@));
            }
            return Err(SnapError::InvalidRange(m));
        }
        let mut combos_list: Vec<Combo> = Vec::new();
        let nh = range.len();
        let mut h: usize = 0;
        while h < nh
            invariant
                h <= nh,
                nh == range@.len(),
                range@ == player_ranges@[p as int]@,
                combos_list@.len() == h,
                forall|k: int| 0 <= k < h ==> combo_ok(#[trigger] combos_list@[k]),
                forall|k: int|
                    0 <= k < h ==> #[trigger] combos_list@[k] == range_cands_of(
                        player_ranges@,
                    )[p as int][k],
                forall|k: int| 0 <= k < h ==> #[trigger] holding_ok(range@, k),
            decreases nh - h,
        {
            let hand = &range[h];
            if hand.len() != 2 {
                let mut m = String::from_str("Player ");
                append_u64(&mut m, (p + 1) as u64);
                m.append(" range hand ");
                append_u64(&mut m, (h + 1) as u64);
                m.append(" must have exactly 2 cards");
                proof {
                    assert(!holding_ok(player_ranges@[p as int]@, h as int));
                    assert(!range_entry_ok(player_ranges@[p as int]@));
                }
                return Err(SnapError::InvalidRange(m));
            }
            let c1 = hand[0];
            let c2 = hand[1];
            if c1.value >= 13 || c1.suit >= 4 || c2.value >= 13 || c2.suit >= 4 {
                let mut m = String::from_str("Player ");
                append_u64(&mut m, (p + 1) as u64);
                m.append(" range hand ");
                append_u64(&mut m, (h + 1) as u64);
                m.append(" contains an invalid card");
                proof {
                    assert(hand@ == range@[h as int]@);
                    assert(!holding_ok(player_ranges@[p as int]@, h as int));
                    assert(!range_entry_ok(player_ranges@[p as int]@));
                }
                return Err(SnapError::InvalidRange(m));
            }
            if c1.value == c2.value && c1.suit == c2.suit {
                let mut m = String::from_str("Player ");
                append_u64(&mut m, (p + 1) as u64);
                m.append(" range hand ");
                append_u64(&mut m, (h + 1) as u64);
                m.append(" contains duplicate cards");
                proof {
                    assert(hand@ == range@[h as int]@);
                    assert(range@[h as int]@[0] == range@[h as int]@[1]);
                    assert(!holding_ok(player_ranges@[p as int]@, h as int));
                    assert(!range_entry_ok(player_ranges@[p as int]@));
                }
                return Err(SnapError::InvalidRange(m));
            }
            proof {
                assert(c1 != c2);
            }
            combos_list.push(Combo { first: c1, second: c2 });
            proof {
                assert(hand@ == range@[h as int]@);
                assert(range@[h as int]@.len() == 2);
                assert(range@[h as int]@[0] == c1 && range@[h as int]@[1] == c2);
                assert(card_ok(c1) && card_ok(c2) && c1 != c2);
                assert(holding_ok(range@, h as int));
                assert(range_cands_of(player_ranges@)[p as int] == Seq::new(
                    player_ranges@[p as int]@.len(),
                    |k: int|
                        Combo {
                            first: player_ranges@[p as int]@[k]@[0],
                            second: player_ranges@[p as int]@[k]@[1],
                        },
                ));
                assert(combos_list@[h as int] == range_cands_of(player_ranges@)[p as int][h as int]);
            }
            h = h + 1;
        }
        proof {
            assert(range@.len() > 0);
            assert(range_entry_ok(player_ranges@[p as int]@));
            assert(combos_list@ =~= range_cands_of(player_ranges@)[p as int]);
        }
        specs.push(HoleCardsInput::Range(combos_list));
        p = p + 1;
    }
    proof {
        assert(ranges_ok(player_ranges@));
        assert(spec_candidates(specs@) =~= range_cands_of(player_ranges@)) by {
            assert forall|k: int|
                0 <= k < specs@.len() implies #[trigger] spec_candidates(specs@)[k]
                == range_cands_of(player_ranges@)[k] by {
                assert(specs@[k] is Range);
            }
        }
        lemma_known_all_ranges(specs@);
        assert(board@ + known_seq(specs@) =~= board@);
    }
    let budget = default_iterations(iterations);
    match solve_specs(&specs, board, budget) {
        Ok(res) => Ok(res.equities),
        Err(e) => Err(e),
    }
}

/// The iteration budget cap of [`estimate_equity`].
pub open spec fn capped_iterations(iterations: usize) -> u32 {
    if iterations > 0xffffffff {
        0xffffffffu32
    } else {
        iterations as u32
    }
}

/// Whether the hero descriptor names at least one concrete card.
pub open spec fn hero_known(hv: Seq<char>) -> bool {
    trimmed(hv).len() > 0 && parse_cards_ok(trimmed(hv))
}

/// Estimates equity for a hero against one or more villains.
///
/// The hero must be fully or partially known; villains may be anything.
/// `equities[0]` is the hero's share. An iteration budget of zero means
/// the default of 10,000.
#[verifier::loop_isolation(false)]
pub fn estimate_equity(board: &str, hero: &str, villains: &Vec<String>, iterations: usize) -> (r:
    Result<EquityResult, SnapError>)
    ensures
        ({
            let ds = seq![hero@] + views_of(villains@);
            let bval = board_input_val(board@);
            let n = villains@.len() + 1;
            &&& (villains@.len() == 0 ==> r is Err
                && r->Err_0 matches SnapError::InvalidHand(_))
            &&& (villains@.len() > 0 && trimmed(hero@).len() == 0 ==> r is Err
                && r->Err_0 matches SnapError::InvalidHand(_))
            &&& (villains@.len() > 0 && !hero_known(hero@) ==> r is Err)
            &&& (villains@.len() > 0 && hero_known(hero@) && inputs_admitted(ds, board@) ==> r
                is Ok || r->Err_0 matches SnapError::InvalidRange(_))
            &&& (villains@.len() > 0 && hero_known(hero@) && inputs_admitted(ds, board@)
                && no_range_descriptor(ds) ==> {
                let models = descriptor_models(ds);
                let cnt = assignment_count(models, bval);
                let rc = runout_count(n as int, bval.len() as int);
                let lim = exact_assignment_limit(
                    crate::combinatorics::default_iterations_spec(capped_iterations(iterations)) as nat,
                    rc,
                );
                &&& (cnt == 0 ==> r is Err && r->Err_0 matches SnapError::InvalidRange(_))
                &&& (0 < cnt <= lim ==> r is Ok && r->Ok_0.mode
                    == EquityEstimateMode::ExactEnumeration)
                &&& (r is Ok ==> (r->Ok_0.mode == EquityEstimateMode::ExactEnumeration <==> cnt
                    <= lim))
                &&& (r is Ok && r->Ok_0.mode == EquityEstimateMode::ExactEnumeration
                    ==> win_view(r->Ok_0.equities@) == exact_equities(
                    assign_seqs(spec_candidates(models), bval.to_set()),
                    bval,
                    n,
                ) && r->Ok_0.samples == cnt * rc)
            })
            &&& (r is Ok ==> inputs_admitted(ds, board@) && {
                let res = r->Ok_0;
                &&& res.equities@.len() == n
                &&& res.samples >= 1
                &&& forall|i: int|
                    0 <= i < res.equities@.len() ==> #[trigger] res.equities@[i] <= EQUITY_SCALE
                &&& scale() - 2 * n < sum_int(win_view(res.equities@)) <= scale()
                &&& res.math.iteration_budget
                    == crate::combinatorics::default_iterations_spec(
                    capped_iterations(iterations),
                )
            })
        }),
{
    if villains.len() == 0 {
        return Err(SnapError::InvalidHand(String::from_str("Need at least 1 villain")));
    }
    let mut player_hands: Vec<String> = Vec::new();
    player_hands.push(String::from_str(hero));
    let nv = villains.len();
    let mut i: usize = 0;
    while i < nv
        invariant
            i <= nv,
            player_hands@.len() == i + 1,
            player_hands@[0]@ == hero@,
            forall|k: int| 0 <= k < i ==> player_hands@[k + 1]@ == #[trigger] villains@[k]@,
        decreases nv - i,
    {
        player_hands.push(String::from_str(villains[i].as_str()));
        i = i + 1;
    }
    proof {
        assert(views_of(player_hands@) =~= seq![hero@] + views_of(villains@));
    }
    // The hero's cards must be at least partially known.
    let empty_board: Vec<Card> = Vec::new();
    match parse_player_hand_input(hero, &empty_board) {
        Ok(HoleCardsInput::Exact(_)) => {},
        Ok(HoleCardsInput::Partial(_)) => {},
        Ok(other) => {
            proof {
                match other {
                    HoleCardsInput::Unknown => {
                        assert(!hero_known(hero@));
                    },
                    HoleCardsInput::Range(_) => {
                        assert(!hero_known(hero@));
                    },
                    _ => {},
                }
            }
            return Err(
                SnapError::InvalidHand(
                    String::from_str(
                        "Hero must be exact hole cards (e.g. \"AhKd\") or a single card (e.g. \"Ah\")",
                    ),
                ),
            );
        },
        Err(e) => {
            proof {
                let hv = hero@;
                let bval = board_input_val(board@);
                let ds = seq![hero@] + views_of(villains@);
                if hero_known(hv) {
                    assert(empty_board@ =~= Seq::<Card>::empty());
                    assert(!player_input_ok(hv, empty_board@));
                    assert(!player_input_ok(hv, bval)) by {
                        if player_input_ok(hv, bval) {
                            assert(player_input_ok(hv, empty_board@));
                        }
                    }
                    assert(ds[0] == hv);
                    assert(!descriptors_ok(ds, bval));
                }
            }
            return Err(e);
        },
    }
    let capped: u32 = if iterations > 0xffffffff {
        0xffffffffu32
    } else {
        iterations as u32
    };
    calculate_equity_with_math(&player_hands, board, capped)
}

} // verus!
