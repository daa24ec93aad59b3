//! The Monte Carlo equity engine.
//!
//! Each iteration deals one valid configuration in two passes: range
//! players are placed first by rejection sampling from their own holding
//! lists, then a single shuffle of the remaining deck deals every other
//! unknown card and the missing board cards. Every dealt configuration is
//! revalidated before scoring, so the scoring contract does not depend on
//! the dealing bookkeeping; an iteration that cannot be completed is
//! abandoned. With no valid sample after the full budget the engine fails.

use vstd::prelude::*;
use crate::card::{Card, Combo, card_ok, combo_ok, CardMarks};
use crate::input::HoleCardsInput;
use crate::assign::specs_wf;
use crate::engine::{seven_ok, win_view, sum_int, deal_credit, scale, lemma_sum_const, lemma_sum_bounds, lemma_div_sum};
use crate::types::{SnapError, EQUITY_SCALE};

verus! {

/// Relies on rand's `Rng::random_range` over the thread-local generator:
/// returns an index below `n`. Nothing more is promised of a random draw.
#[verifier::external_body]
pub(crate) fn random_below(n: usize) -> (r: usize)
    requires
        n > 0,
    ensures
        r < n,
{
    rand::Rng::random_range(&mut rand::rng(), 0..n)
}

/// Relies on rand's `SliceRandom::shuffle` over the thread-local generator:
/// permutes the cards in place, keeping their number and multiset. Which
/// permutation comes out is not promised.
#[verifier::external_body]
pub(crate) fn shuffle_cards(cards: &mut Vec<Card>)
    ensures
        final(cards)@.len() == old(cards)@.len(),
        final(cards)@.to_multiset() == old(cards)@.to_multiset(),
{
    rand::seq::SliceRandom::shuffle(cards.as_mut_slice(), &mut rand::rng());
}

/// A permutation of a duplicate-free sequence is duplicate-free and holds
/// the same elements.
proof fn lemma_permutation_props(a: Seq<Card>, b: Seq<Card>)
    requires
        a.to_multiset() == b.to_multiset(),
        a.no_duplicates(),
    ensures
        b.no_duplicates(),
        forall|c: Card| b.contains(c) <==> a.contains(c),
{
    a.to_multiset_ensures();
    b.to_multiset_ensures();
    a.lemma_multiset_has_no_duplicates();
    b.lemma_multiset_has_no_duplicates_conv();
    assert forall|c: Card| b.contains(c) <==> a.contains(c) by {
        assert(a.contains(c) <==> a.to_multiset().count(c) > 0);
        assert(b.contains(c) <==> b.to_multiset().count(c) > 0);
    }
}

/// The per-player equity shares of a win-unit vector: each player's units
/// over the total, scaled; an all-zero vector splits the pot evenly.
pub open spec fn shares_of(w: Seq<int>) -> Seq<int> {
    if sum_int(w) == 0 {
        Seq::new(w.len(), |i: int| scale() / w.len() as int)
    } else {
        Seq::new(w.len(), |i: int| w[i] * scale() / sum_int(w))
    }
}

/// Shares lie within the scale and sum to it up to one unit per player.
pub proof fn lemma_shares_bounds(w: Seq<int>)
    requires
        w.len() >= 1,
        forall|i: int| 0 <= i < w.len() ==> 0 <= #[trigger] w[i],
    ensures
        shares_of(w).len() == w.len(),
        forall|i: int| 0 <= i < w.len() ==> 0 <= #[trigger] shares_of(w)[i] <= scale(),
        scale() - w.len() < sum_int(shares_of(w)) <= scale(),
{
    let n = w.len() as int;
    let tot = sum_int(w);
    lemma_sum_bounds(w);
    if tot == 0 {
        let e = Seq::new(w.len(), |i: int| scale() / n);
        vstd::arithmetic::div_mod::lemma_fundamental_div_mod(scale(), n);
        vstd::arithmetic::div_mod::lemma_mod_bound(scale(), n);
        assert(0 <= scale() / n <= scale()) by (nonlinear_arith)
            requires
                scale() == n * (scale() / n) + scale() % n,
                0 <= scale() % n < n,
                n >= 1,
        ;
        lemma_sum_const(w.len(), scale() / n);
        assert(sum_int(e) == n * (scale() / n));
        assert(scale() - n < n * (scale() / n) <= scale()) by (nonlinear_arith)
            requires
                scale() == n * (scale() / n) + scale() % n,
                0 <= scale() % n < n,
        ;
    } else {
        let x = Seq::new(w.len(), |i: int| w[i] * scale());
        let e = Seq::new(w.len(), |i: int| w[i] * scale() / tot);
        assert forall|i: int| 0 <= i < x.len() implies 0 <= #[trigger] x[i] by {
            assert(w[i] * scale() >= 0) by (nonlinear_arith)
                requires
                    w[i] >= 0,
            ;
        }
        lemma_div_sum(x, tot);
        assert(Seq::new(x.len(), |i: int| x[i] / tot) =~= e);
        crate::engine::lemma_sum_scale(w, scale());
        assert(sum_int(x) == tot * scale()) by {
            assert(Seq::new(w.len(), |i: int| w[i] * scale()) =~= x);
        }
        assert forall|i: int| 0 <= i < w.len() implies 0 <= #[trigger] e[i] <= scale() by {
            vstd::arithmetic::div_mod::lemma_fundamental_div_mod(x[i], tot);
            vstd::arithmetic::div_mod::lemma_mod_bound(x[i], tot);
            assert(0 <= x[i] / tot <= scale()) by (nonlinear_arith)
                requires
                    x[i] == tot * (x[i] / tot) + x[i] % tot,
                    0 <= x[i] % tot < tot,
                    x[i] == w[i] * scale(),
                    0 <= w[i] <= tot,
                    scale() > 0,
                    tot > 0,
            ;
        }
        assert(scale() - n < sum_int(e) <= scale()) by (nonlinear_arith)
            requires
                sum_int(e) * tot <= tot * scale(),
                tot * scale() <= sum_int(e) * tot + n * (tot - 1),
                tot > 0,
                n >= 1,
        ;
    }
}

/// Normalizes win counters into equity shares of the scale.
#[verifier::loop_isolation(false)]
pub(crate) fn normalize_counts(wins: &Vec<u64>) -> (r: Vec<u64>)
    requires
        1 <= wins@.len() <= 23,
    ensures
        r@.len() == wins@.len(),
        win_view(r@) == shares_of(win_view(wins@)),
        forall|i: int| 0 <= i < r@.len() ==> #[trigger] r@[i] <= EQUITY_SCALE,
{
    let n = wins.len();
    let ghost w = win_view(wins@);
    let mut tot: u128 = 0;
    let mut i: usize = 0;
    proof {
        assert(w.take(0) =~= Seq::<int>::empty());
    }
    while i < n
        invariant
            i <= n,
            tot == sum_int(w.take(i as int)),
            tot <= i * 0xffffffffffffffffu128,
        decreases n - i,
    {
        proof {
            assert(w.take(i + 1).drop_last() =~= w.take(i as int));
            assert(w.take(i + 1).last() == w[i as int]);
            assert(wins@[i as int] as int == w[i as int]);
            assert((i + 1) * 0xffffffffffffffffu128 == i * 0xffffffffffffffffu128
                + 0xffffffffffffffffu128) by (nonlinear_arith);
        }
        tot = tot + wins[i] as u128;
        i = i + 1;
    }
    proof {
        assert(w.take(n as int) =~= w);
        assert(forall|k: int| 0 <= k < w.len() ==> 0 <= #[trigger] w[k]);
        lemma_sum_bounds(w);
        lemma_shares_bounds(w);
    }
    let mut out: Vec<u64> = Vec::new();
    if tot == 0 {
        let share = EQUITY_SCALE / (n as u64);
        let mut i: usize = 0;
        while i < n
            invariant
                i <= n,
                out@.len() == i,
                forall|k: int| 0 <= k < i ==> #[trigger] out@[k] == share,
            decreases n - i,
        {
            out.push(share);
            i = i + 1;
        }
        proof {
            assert(win_view(out@) =~= shares_of(w));
            assert forall|k: int| 0 <= k < out@.len() implies #[trigger] out@[k]
                <= EQUITY_SCALE by {
                assert(win_view(out@)[k] == out@[k] as int);
                assert(shares_of(w)[k] <= scale());
            }
        }
    } else {
        let mut i: usize = 0;
        while i < n
            invariant
                i <= n,
                out@.len() == i,
                tot == sum_int(w),
                tot > 0,
                forall|k: int|
                    0 <= k < i ==> #[trigger] out@[k] as int == w[k] * scale() / sum_int(w)
                        && out@[k] <= EQUITY_SCALE,
            decreases n - i,
        {
            let wi = wins[i] as u128;
            proof {
                assert(wi as int == w[i as int]);
                assert(w[i as int] <= sum_int(w));
                assert(wi * (EQUITY_SCALE as u128) <= 0xffffffffffffffffffffffffffffffffu128
                    && wi * (EQUITY_SCALE as u128) == w[i as int] * scale()) by (nonlinear_arith)
                    requires
                        wi as int == w[i as int],
                        0 <= wi < 0x10000000000000000u128,
                        EQUITY_SCALE == 1000000000000u64,
                ;
                vstd::arithmetic::div_mod::lemma_fundamental_div_mod(
                    w[i as int] * scale(),
                    tot as int,
                );
                vstd::arithmetic::div_mod::lemma_mod_bound(w[i as int] * scale(), tot as int);
                assert(0 <= w[i as int] * scale() / (tot as int) <= scale()) by (nonlinear_arith)
                    requires
                        w[i as int] * scale() == (tot as int) * (w[i as int] * scale() / (
                        tot as int)) + (w[i as int] * scale()) % (tot as int),
                        0 <= (w[i as int] * scale()) % (tot as int) < tot as int,
                        0 <= w[i as int] <= tot as int,
                        scale() > 0,
                        tot > 0,
                ;
            }
            let share128 = wi * (EQUITY_SCALE as u128) / tot;
            let share = share128 as u64;
            out.push(share);
            i = i + 1;
        }
        proof {
            assert(win_view(out@) =~= shares_of(w));
        }
    }
    out
}

/// Whether a dealt configuration is fit for scoring: a five-card board of
/// valid, pairwise distinct cards, and every holding well formed and clear
/// of the board.
fn deal_is_valid(hands: &Vec<Combo>, fb: &Vec<Card>) -> (r: bool)
    ensures
        r ==> forall|i: int| 0 <= i < hands@.len() ==> seven_ok(#[trigger] hands@[i], fb@),
{
    if fb.len() < 3 || fb.len() > 5 {
        return false;
    }
    let m = fb.len();
    let mut i: usize = 0;
    while i < m
        invariant
            i <= m,
            m == fb@.len(),
            forall|k: int| 0 <= k < i ==> card_ok(#[trigger] fb@[k]),
            forall|a: int, b: int| 0 <= a < b < i ==> fb@[a] != fb@[b],
        decreases m - i,
    {
        let c = fb[i];
        if c.value >= 13 || c.suit >= 4 {
            return false;
        }
        let mut j: usize = 0;
        while j < i
            invariant
                j <= i < m,
                m == fb@.len(),
                c == fb@[i as int],
                forall|b: int| 0 <= b < j ==> fb@[b] != c,
            decreases i - j,
        {
            if fb[j].value == c.value && fb[j].suit == c.suit {
                return false;
            }
            j = j + 1;
        }
        i = i + 1;
    }
    proof {
        assert forall|a: int, b: int|
            0 <= a < fb@.len() && 0 <= b < fb@.len() && a != b implies fb@[a] != fb@[b] by {
            if a < b {
            } else {
                assert(fb@[b] != fb@[a]);
            }
        }
        assert(fb@.no_duplicates());
    }
    let n = hands.len();
    let mut i: usize = 0;
    while i < n
        invariant
            i <= n,
            n == hands@.len(),
            3 <= fb@.len() <= 5,
            fb@.no_duplicates(),
            forall|k: int| 0 <= k < fb@.len() ==> card_ok(#[trigger] fb@[k]),
            forall|k: int| 0 <= k < i ==> seven_ok(#[trigger] hands@[k], fb@),
        decreases n - i,
    {
        let h = hands[i];
        if h.first.value >= 13 || h.first.suit >= 4 || h.second.value >= 13 || h.second.suit >= 4 {
            return false;
        }
        if h.first.value == h.second.value && h.first.suit == h.second.suit {
            return false;
        }
        proof {
            assert(h.first != h.second);
        }
        if crate::input::cards_contain(fb, h.first) || crate::input::cards_contain(fb, h.second) {
            return false;
        }
        i = i + 1;
    }
    true
}

/// Runs the Monte Carlo sampler for the given players and board.
///
/// Returns the per-player win counters and the number of valid samples, or
/// the no-samples error when every iteration was abandoned.
#[verifier::loop_isolation(false)]
pub(crate) fn monte_carlo_equity(
    specs: &Vec<HoleCardsInput>,
    board: &Vec<Card>,
    iterations: usize,
) -> (r: Result<(Vec<u64>, usize), SnapError>)
    requires
        1 <= specs@.len() <= 23,
        specs_wf(specs@),
        board@.len() <= 5,
        forall|i: int| 0 <= i < board@.len() ==> card_ok(#[trigger] board@[i]),
    ensures
        match r {
            Ok((eq, samples)) => {
                &&& eq@.len() == specs@.len()
                &&& 1 <= samples <= iterations
                &&& forall|i: int| 0 <= i < eq@.len() ==> #[trigger] eq@[i] <= EQUITY_SCALE
                &&& scale() - specs@.len() < sum_int(win_view(eq@)) <= scale()
            },
            Err(e) => e matches SnapError::InvalidRange(m) && m@ == "No valid samples generated"@,
        },
{
    let n = specs.len();
    let missing = 5 - board.len();

    // Cards fixed for every iteration: the board and all known hole cards.
    let mut fixed = CardMarks::new();
    fixed.insert_all(board);
    let mut i: usize = 0;
    while i < n
        invariant
            i <= n,
            fixed.wf(),
        decreases n - i,
    {
        match &specs[i] {
            HoleCardsInput::Exact(h) => {
                fixed.insert(h.first);
                fixed.insert(h.second);
            },
            HoleCardsInput::Partial(c) => {
                fixed.insert(*c);
            },
            _ => {},
        }
        i = i + 1;
    }

    let mut wins: Vec<u64> = Vec::new();
    let mut z: usize = 0;
    while z < n
        invariant
            z <= n,
            wins@.len() == z,
            forall|k: int| 0 <= k < z ==> #[trigger] wins@[k] == 0,
        decreases n - z,
    {
        wins.push(0);
        z = z + 1;
    }

    let mut samples: usize = 0;
    let mut iter: usize = 0;
    while iter < iterations
        invariant
            iter <= iterations,
            samples <= iter,
            fixed.wf(),
            wins@.len() == n,
            n == specs@.len(),
            forall|k: int| 0 <= k < n ==> #[trigger] wins@[k] <= samples,
        decreases iterations - iter,
    {
        iter = iter + 1;

        let mut used = fixed.duplicate();

        // First pass: place range players by rejection sampling.
        let mut picks: Vec<Option<Combo>> = Vec::new();
        let mut abandon = false;
        let mut p: usize = 0;
        while p < n
            invariant
                p <= n,
                used.wf(),
                picks@.len() == p,
            decreases n - p,
        {
            match &specs[p] {
                HoleCardsInput::Range(list) => {
                    proof {
                        assert(crate::assign::hole_input_wf(specs@[p as int]));
                    }
                    let mut found: Option<Combo> = None;
                    let mut tries: usize = 0;
                    while tries < 100 && found.is_none()
                        invariant
                            used.wf(),
                            tries <= 100,
                            match found {
                                Some(h) => combo_ok(h),
                                None => true,
                            },
                            list@.len() > 0,
                            forall|k: int| 0 <= k < list@.len() ==> combo_ok(#[trigger] list@[k]),
                        decreases 100 - tries,
                    {
                        let idx = random_below(list.len());
                        let h = list[idx];
                        if !used.contains(h.first) && !used.contains(h.second) {
                            used.insert(h.first);
                            used.insert(h.second);
                            found = Some(h);
                        }
                        tries = tries + 1;
                    }
                    match found {
                        Some(h) => {
                            picks.push(Some(h));
                        },
                        None => {
                            abandon = true;
                            picks.push(None);
                        },
                    }
                },
                _ => {
                    picks.push(None);
                },
            }
            p = p + 1;
        }
        if abandon {
            continue ;
        }

        // Shuffle what is left of the deck.
        let mut available = crate::engine::residual_deck(&used);
        let ghost before_shuffle = available@;
        shuffle_cards(&mut available);
        proof {
            lemma_permutation_props(before_shuffle, available@);
        }

        // Second pass: deal every non-range player from the shuffled deck.
        let mut hands: Vec<Combo> = Vec::new();
        let mut cursor: usize = 0;
        let mut short = false;
        let mut q: usize = 0;
        while q < n
            invariant
                q <= n,
                picks@.len() == n,
                cursor <= available@.len(),
                hands@.len() <= q,
            decreases n - q,
        {
            if short {
                q = q + 1;
                continue ;
            }
            match &specs[q] {
                HoleCardsInput::Exact(h) => {
                    hands.push(*h);
                },
                HoleCardsInput::Partial(c) => {
                    if cursor >= available.len() {
                        short = true;
                    } else {
                        hands.push(Combo { first: *c, second: available[cursor] });
                        cursor = cursor + 1;
                    }
                },
                HoleCardsInput::Unknown => {
                    if cursor + 1 >= available.len() {
                        short = true;
                    } else {
                        hands.push(
                            Combo { first: available[cursor], second: available[cursor + 1] },
                        );
                        cursor = cursor + 2;
                    }
                },
                HoleCardsInput::Range(_) => {
                    match &picks[q] {
                        Some(h) => {
                            hands.push(*h);
                        },
                        None => {
                            short = true;
                        },
                    }
                },
            }
            q = q + 1;
        }
        if short || hands.len() != n {
            continue ;
        }

        // Complete the board from the cursor.
        let mut fb = crate::combinatorics::copy_cards(board);
        let mut filled: usize = 0;
        while filled < missing && cursor < available.len()
            invariant
                filled <= missing,
                cursor <= available@.len(),
            decreases missing - filled,
        {
            fb.push(available[cursor]);
            cursor = cursor + 1;
            filled = filled + 1;
        }
        if filled < missing {
            continue ;
        }

        // Revalidate and score the deal.
        if deal_is_valid(&hands, &fb) {
            proof {
                assert forall|k: int| 0 <= k < n implies #[trigger] wins@[k] < u64::MAX by {
                    assert(wins@[k] <= samples);
                }
            }
            let ghost prev = wins@;
            crate::engine::score_deal(&hands, &fb, &mut wins);
            proof {
                crate::engine::lemma_deal_credit_bounds(hands@, fb@);
                assert forall|k: int| 0 <= k < n implies #[trigger] wins@[k] <= samples + 1 by {
                    assert(win_view(wins@)[k] == win_view(prev)[k] + deal_credit(hands@, fb@)[k]);
                    assert(win_view(prev)[k] == prev[k] as int);
                    assert(win_view(wins@)[k] == wins@[k] as int);
                }
            }
            samples = samples + 1;
        }
    }

    if samples == 0 {
        return Err(SnapError::InvalidRange(String::from_str("No valid samples generated")));
    }
    let eq = normalize_counts(&wins);
    proof {
        let w = win_view(wins@);
        assert(forall|k: int| 0 <= k < w.len() ==> 0 <= #[trigger] w[k]);
        lemma_shares_bounds(w);
    }
    Ok((eq, samples))
}

} // verus!
