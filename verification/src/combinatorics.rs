//! The deck, binomial coefficients, and k-card combinations.

use vstd::prelude::*;
use crate::card::{Card, card_ok};

verus! {

/// The binomial coefficient, by Pascal's rule.
pub open spec fn binom(n: nat, k: nat) -> nat
    decreases n,
{
    if k == 0 {
        1
    } else if n == 0 {
        0
    } else {
        binom((n - 1) as nat, (k - 1) as nat) + binom((n - 1) as nat, k)
    }
}

/// Choosing more than there is leaves nothing.
pub proof fn lemma_binom_gt(n: nat, k: nat)
    requires
        k > n,
    ensures
        binom(n, k) == 0,
    decreases n,
{
    if n > 0 {
        lemma_binom_gt((n - 1) as nat, (k - 1) as nat);
        lemma_binom_gt((n - 1) as nat, k);
    }
}

/// Choosing within bounds always leaves at least one way.
pub proof fn lemma_binom_pos(n: nat, k: nat)
    requires
        k <= n,
    ensures
        binom(n, k) >= 1,
    decreases n,
{
    if k > 0 {
        lemma_binom_pos((n - 1) as nat, (k - 1) as nat);
    }
}

/// Choosing everything leaves exactly one way.
pub proof fn lemma_binom_all(n: nat)
    ensures
        binom(n, n) == 1,
    decreases n,
{
    if n > 0 {
        lemma_binom_all((n - 1) as nat);
        lemma_binom_gt((n - 1) as nat, n);
    }
}

/// The ratio between neighbouring binomial coefficients:
/// `(j+1) * C(n, j+1) == (n-j) * C(n, j)`.
pub proof fn lemma_binom_ratio(n: nat, j: nat)
    ensures
        (j + 1) * binom(n, (j + 1) as nat) == (n - j) * binom(n, j),
    decreases n,
{
    if n == 0 {
        if j > 0 {
            lemma_binom_gt(0, j);
        }
        lemma_binom_gt(0, (j + 1) as nat);
    } else {
        let m = (n - 1) as nat;
        if j == 0 {
            lemma_binom_ratio_helper(n);
            let b1 = binom(n, (j + 1) as nat);
            let b0 = binom(n, j);
            assert(b1 == binom(n, 1));
            assert(b0 == 1);
            assert((j + 1) * b1 == (n - j) * b0) by (nonlinear_arith)
                requires
                    j == 0,
                    b1 == n,
                    b0 == 1,
            ;
        } else {
            let jm = (j - 1) as nat;
            lemma_binom_ratio(m, j);
            lemma_binom_ratio(m, jm);
            let a = binom(m, jm);
            let b = binom(m, j);
            let c = binom(m, (j + 1) as nat);
            assert(binom(n, (j + 1) as nat) == b + c);
            assert(binom(n, j) == a + b);
            assert((jm + 1) * binom(m, (jm + 1) as nat) == (m - jm) * a);
            assert(binom(m, (jm + 1) as nat) == b);
            assert((j + 1) * binom(n, (j + 1) as nat) == (n - j) * binom(n, j))
                by (nonlinear_arith)
                requires
                    binom(n, (j + 1) as nat) == b + c,
                    binom(n, j) == a + b,
                    (j + 1) * c == (m - j) * b,
                    (jm + 1) * b == (m - jm) * a,
                    jm == j - 1,
                    n == m + 1,
                    j >= 1,
            ;
        }
    }
}

/// `C(m, 1) == m`.
proof fn lemma_binom_ratio_helper(m: nat)
    ensures
        binom(m, 1) == m,
    decreases m,
{
    if m > 0 {
        lemma_binom_ratio_helper((m - 1) as nat);
        assert(binom((m - 1) as nat, 0) == 1);
    }
}

/// Binomial coefficients grow towards the middle.
pub proof fn lemma_binom_mono(n: nat, a: nat, b: nat)
    requires
        a <= b,
        2 * b <= n,
    ensures
        binom(n, a) <= binom(n, b),
    decreases b - a,
{
    if a < b {
        lemma_binom_mono(n, (a + 1) as nat, b);
        lemma_binom_ratio(n, a);
        lemma_binom_pos(n, a);
        // (a+1) * C(n, a+1) == (n-a) * C(n, a) and n-a >= a+1
        assert(binom(n, a) <= binom(n, (a + 1) as nat)) by (nonlinear_arith)
            requires
                (a + 1) * binom(n, (a + 1) as nat) == (n - a) * binom(n, a),
                n - a >= a + 1,
                binom(n, a) >= 1,
                a >= 0,
        ;
    }
}

/// Symmetry: `C(n, k) == C(n, n-k)`.
pub proof fn lemma_binom_sym(n: nat, k: nat)
    requires
        k <= n,
    ensures
        binom(n, k) == binom(n, (n - k) as nat),
    decreases n,
{
    if k == 0 {
        lemma_binom_all(n);
    } else if k == n {
        lemma_binom_all(n);
    } else {
        let m = (n - 1) as nat;
        lemma_binom_sym(m, (k - 1) as nat);
        lemma_binom_sym(m, k);
        assert((m - (k - 1)) as nat == (n - k) as nat);
        assert((m - k) as nat == (n - k - 1) as nat);
    }
}

/// Computes `n choose k`, clamped to `usize::MAX` when it does not fit.
pub fn n_choose_k(n: usize, k: usize) -> (r: usize)
    ensures
        binom(n as nat, k as nat) <= usize::MAX ==> r == binom(n as nat, k as nat),
        binom(n as nat, k as nat) > usize::MAX ==> r == usize::MAX,
{
    if k > n {
        proof {
            lemma_binom_gt(n as nat, k as nat);
        }
        return 0;
    }
    let kk: usize = if k <= n - k {
        k
    } else {
        n - k
    };
    proof {
        lemma_binom_sym(n as nat, k as nat);
    }
    let mut result: u128 = 1;
    let mut i: usize = 0;
    while i < kk
        invariant
            i <= kk,
            kk <= n,
            2 * kk <= n,
            result == binom(n as nat, i as nat),
            result <= usize::MAX,
            usize::MAX <= 0xffffffffffffffffu128,
            binom(n as nat, kk as nat) == binom(n as nat, k as nat),
        decreases kk - i,
    {
        proof {
            lemma_binom_ratio(n as nat, i as nat);
            lemma_binom_pos(n as nat, (i + 1) as nat);
            assert(result * ((n - i) as u128) <= 0xffffffffffffffffffffffffffffffffu128)
                by (nonlinear_arith)
                requires
                    0 <= result <= 0xffffffffffffffffu128,
                    0 <= (n - i) as u128 <= 0xffffffffffffffffu128,
            ;
        }
        let prod: u128 = result * ((n - i) as u128);
        let next: u128 = prod / ((i + 1) as u128);
        proof {
            // (i+1) * C(n, i+1) == (n-i) * C(n, i) makes the division exact.
            assert(prod == (i + 1) * binom(n as nat, (i + 1) as nat)) by (nonlinear_arith)
                requires
                    prod == result * ((n - i) as u128),
                    result == binom(n as nat, i as nat),
                    (i + 1) * binom(n as nat, (i + 1) as nat) == ((n - i) as int) * binom(
                        n as nat,
                        i as nat,
                    ),
                    0 <= i < n,
            ;
            assert(next == binom(n as nat, (i + 1) as nat)) by (nonlinear_arith)
                requires
                    next == prod / ((i + 1) as u128),
                    prod == (i + 1) * binom(n as nat, (i + 1) as nat),
                    i + 1 >= 1,
            ;
        }
        if next > usize::MAX as u128 {
            proof {
                lemma_binom_mono(n as nat, (i + 1) as nat, kk as nat);
            }
            return usize::MAX;
        }
        result = next;
        i = i + 1;
    }
    result as usize
}

/// Computes `n choose k` with overflow clamping; see [`n_choose_k`].
pub fn combination_count(n: usize, k: usize) -> (r: usize)
    ensures
        binom(n as nat, k as nat) <= usize::MAX ==> r == binom(n as nat, k as nat),
        binom(n as nat, k as nat) > usize::MAX ==> r == usize::MAX,
{
    n_choose_k(n, k)
}

/// Resolves the iteration budget; `0` means the default of 10,000.
pub fn default_iterations(iterations: u32) -> (r: usize)
    ensures
        r == default_iterations_spec(iterations),
{
    if iterations == 0 {
        10000
    } else {
        iterations as usize
    }
}

/// What [`default_iterations`] returns.
pub open spec fn default_iterations_spec(iterations: u32) -> usize {
    if iterations == 0 {
        10000usize
    } else {
        iterations as usize
    }
}

/// The suit at a position within one value's block of four: spade, heart,
/// diamond, club.
pub open spec fn deck_suit_at(r: int) -> u8 {
    if r == 0 {
        0u8
    } else if r == 1 {
        2u8
    } else if r == 2 {
        3u8
    } else {
        1u8
    }
}

/// The card at a deck position: values descend from ace, suits cycle
/// through spade, heart, diamond, club.
pub open spec fn deck_card_at(i: int) -> Card {
    Card { value: (12 - i / 4) as u8, suit: deck_suit_at(i % 4) }
}

/// The full 52-card deck in its fixed enumeration order.
pub open spec fn full_deck() -> Seq<Card> {
    Seq::new(52, |i: int| deck_card_at(i))
}

/// Every deck entry is a well-formed card.
pub proof fn lemma_full_deck_ok()
    ensures
        forall|i: int| 0 <= i < 52 ==> card_ok(#[trigger] full_deck()[i]),
{
    assert forall|i: int| 0 <= i < 52 implies card_ok(#[trigger] full_deck()[i]) by {
        assert(0 <= i / 4 <= 12 && 0 <= i % 4 < 4) by (nonlinear_arith)
            requires
                0 <= i < 52,
        ;
        assert(deck_suit_at(i % 4) < 4);
    }
}

/// Deck positions hold pairwise distinct cards, and every well-formed card
/// appears.
pub proof fn lemma_full_deck_distinct()
    ensures
        full_deck().no_duplicates(),
        forall|c: Card| card_ok(c) ==> full_deck().contains(c),
{
    assert forall|i: int, j: int|
        0 <= i < 52 && 0 <= j < 52 && i != j implies full_deck()[i] != full_deck()[j] by {
        assert(!(i / 4 == j / 4 && i % 4 == j % 4)) by (nonlinear_arith)
            requires
                0 <= i < 52,
                0 <= j < 52,
                i != j,
        ;
        assert(0 <= i % 4 < 4 && 0 <= j % 4 < 4) by (nonlinear_arith)
            requires
                0 <= i < 52,
                0 <= j < 52,
        ;
        if i / 4 == j / 4 {
            assert(deck_suit_at(i % 4) != deck_suit_at(j % 4));
        }
    }
    assert forall|c: Card| card_ok(c) implies full_deck().contains(c) by {
        let r: int = if c.suit == 0 {
            0
        } else if c.suit == 2 {
            1
        } else if c.suit == 3 {
            2
        } else {
            3
        };
        let pos = (12 - c.value) * 4 + r;
        assert(0 <= pos < 52 && pos / 4 == 12 - c.value && pos % 4 == r) by (nonlinear_arith)
            requires
                c.value < 13,
                0 <= r < 4,
                pos == (12 - c.value) * 4 + r,
        ;
        assert(deck_suit_at(r) == c.suit);
        assert(full_deck()[pos] == c);
    }
}

/// Returns the full 52-card deck in deterministic value/suit order.
pub fn all_cards() -> (r: Vec<Card>)
    ensures
        r@ == full_deck(),
{
    let mut cards: Vec<Card> = Vec::new();
    let mut i: usize = 0;
    while i < 52
        invariant
            i <= 52,
            cards@.len() == i,
            forall|j: int| 0 <= j < i ==> cards@[j] == deck_card_at(j),
        decreases 52 - i,
    {
        proof {
            assert(i / 4 <= 12 && i % 4 < 4) by (nonlinear_arith)
                requires
                    0 <= i < 52,
            ;
        }
        let value: u8 = (12 - i / 4) as u8;
        let rem = i % 4;
        let suit: u8 = if rem == 0 {
            0
        } else if rem == 1 {
            2
        } else if rem == 2 {
            3
        } else {
            1
        };
        cards.push(Card { value, suit });
        i = i + 1;
    }
    proof {
        assert(cards@ =~= full_deck());
    }
    cards
}

/// All ways to choose `k` cards from `deck`, keeping the deck's order:
/// combinations that take the first card come first.
pub open spec fn combos(deck: Seq<Card>, k: nat) -> Seq<Seq<Card>>
    decreases deck.len(),
{
    if k == 0 {
        seq![Seq::<Card>::empty()]
    } else if deck.len() == 0 {
        Seq::<Seq<Card>>::empty()
    } else {
        combos(deck.drop_first(), (k - 1) as nat).map_values(|t: Seq<Card>| seq![deck[0]] + t)
            + combos(deck.drop_first(), k)
    }
}

/// There are `C(n, k)` combinations of `k` cards out of `n`.
pub proof fn lemma_combos_count(deck: Seq<Card>, k: nat)
    ensures
        combos(deck, k).len() == binom(deck.len(), k),
    decreases deck.len(),
{
    if k == 0 {
    } else if deck.len() == 0 {
    } else {
        lemma_combos_count(deck.drop_first(), (k - 1) as nat);
        lemma_combos_count(deck.drop_first(), k);
    }
}

/// Every combination has `k` pairwise distinct cards drawn from the deck.
pub proof fn lemma_combos_elems(deck: Seq<Card>, k: nat)
    requires
        deck.no_duplicates(),
    ensures
        forall|t: Seq<Card>| #[trigger]
            combos(deck, k).contains(t) ==> t.len() == k && t.no_duplicates() && (forall|j: int|
                0 <= j < t.len() ==> deck.contains(#[trigger] t[j])),
    decreases deck.len(),
{
    if k == 0 || deck.len() == 0 {
    } else {
        let rest = deck.drop_first();
        lemma_combos_elems(rest, (k - 1) as nat);
        lemma_combos_elems(rest, k);
        let headed = combos(rest, (k - 1) as nat).map_values(|t: Seq<Card>| seq![deck[0]] + t);
        assert forall|t: Seq<Card>| #[trigger] combos(deck, k).contains(t) implies t.len() == k
            && t.no_duplicates() && (forall|j: int|
            0 <= j < t.len() ==> deck.contains(#[trigger] t[j])) by {
            let idx = choose|idx: int|
                0 <= idx < combos(deck, k).len() && combos(deck, k)[idx] == t;
            if idx < headed.len() {
                let t0 = combos(rest, (k - 1) as nat)[idx];
                assert(combos(rest, (k - 1) as nat).contains(t0));
                assert(t == seq![deck[0]] + t0);
                assert(forall|j: int| 0 <= j < t0.len() ==> rest.contains(#[trigger] t0[j]));
                assert(forall|x: Card| rest.contains(x) ==> deck.contains(x)) by {
                    assert(forall|j: int|
                        0 <= j < rest.len() ==> rest[j] == #[trigger] deck[j + 1]);
                }
                assert(!rest.contains(deck[0])) by {
                    if rest.contains(deck[0]) {
                        let j = choose|j: int| 0 <= j < rest.len() && rest[j] == deck[0];
                        assert(deck[j + 1] == deck[0]);
                    }
                }
                assert(!t0.contains(deck[0]));
                assert(t.len() == k);
                assert(t.no_duplicates()) by {
                    assert(forall|j: int| 0 <= j < t0.len() ==> t[j + 1] == #[trigger] t0[j]);
                    assert(t[0] == deck[0]);
                    assert forall|a: int, b: int| 0 <= a < b < t.len() implies t[a] != t[b] by {
                        if a == 0 {
                            assert(t[b] == t0[b - 1]);
                            assert(t0.contains(t0[b - 1]));
                        } else {
                            assert(t[a] == t0[a - 1] && t[b] == t0[b - 1]);
                        }
                    }
                }
                assert(forall|j: int| 0 <= j < t.len() ==> deck.contains(#[trigger] t[j])) by {
                    assert(deck.contains(deck[0])) by {
                        assert(deck[0] == deck[0]);
                    }
                    assert(forall|j: int| 1 <= j < t.len() ==> rest.contains(#[trigger] t[j]));
                }
            } else {
                let t1 = combos(rest, k)[idx - headed.len()];
                assert(combos(rest, k).contains(t1));
                assert(t == t1);
                assert(forall|x: Card| rest.contains(x) ==> deck.contains(x)) by {
                    assert(forall|j: int|
                        0 <= j < rest.len() ==> rest[j] == #[trigger] deck[j + 1]);
                }
            }
        }
    }
}

/// Filtering a duplicate-free sequence keeps it duplicate-free, keeps only
/// matching elements, and invents none.
pub proof fn lemma_filter_keeps(s: Seq<Card>, p: spec_fn(Card) -> bool)
    requires
        s.no_duplicates(),
    ensures
        s.filter(p).no_duplicates(),
        forall|i: int|
            0 <= i < s.filter(p).len() ==> p(#[trigger] s.filter(p)[i]) && s.contains(
                s.filter(p)[i],
            ),
    decreases s.len(),
{
    reveal_with_fuel(Seq::<_>::filter, 2);
    if s.len() > 0 {
        let sp = s.drop_last();
        assert(forall|i: int| 0 <= i < sp.len() ==> sp[i] == #[trigger] s[i]);
        lemma_filter_keeps(sp, p);
        let f = s.filter(p);
        let fp = sp.filter(p);
        assert forall|i: int| 0 <= i < f.len() implies p(#[trigger] f[i]) && s.contains(f[i]) by {
            if i < fp.len() {
                assert(f[i] == fp[i]);
                assert(sp.contains(fp[i]));
                let k = choose|k: int| 0 <= k < sp.len() && sp[k] == fp[i];
                assert(s[k] == fp[i]);
            } else {
                assert(p(s.last()));
                assert(f[i] == s.last());
                assert(s[s.len() - 1] == s.last());
            }
        }
        assert(f.no_duplicates()) by {
            if p(s.last()) {
                assert(!fp.contains(s.last())) by {
                    if fp.contains(s.last()) {
                        let k = choose|k: int| 0 <= k < fp.len() && fp[k] == s.last();
                        assert(sp.contains(fp[k]));
                        let q = choose|q: int| 0 <= q < sp.len() && sp[q] == fp[k];
                        assert(s[q] == s[s.len() - 1]);
                    }
                }
                assert forall|a: int, b: int| 0 <= a < b < f.len() implies f[a] != f[b] by {
                    if b < fp.len() {
                    } else {
                        assert(f[b] == s.last());
                        assert(fp.contains(f[a])) by {
                            assert(f[a] == fp[a]);
                        }
                    }
                }
            }
        }
    }
}

/// The views of a vector of card vectors.
pub open spec fn seqs_of(vs: Seq<Vec<Card>>) -> Seq<Seq<Card>> {
    Seq::new(vs.len(), |i: int| vs[i]@)
}

/// An independent copy of a card vector.
pub(crate) fn copy_cards(v: &Vec<Card>) -> (r: Vec<Card>)
    ensures
        r@ == v@,
{
    let mut r: Vec<Card> = Vec::new();
    let n = v.len();
    let mut i: usize = 0;
    while i < n
        invariant
            i <= n,
            n == v@.len(),
            r@ == v@.take(i as int),
        decreases n - i,
    {
        r.push(v[i]);
        proof {
            assert(v@.take(i + 1) =~= v@.take(i as int).push(v@[i as int]));
        }
        i = i + 1;
    }
    proof {
        assert(v@.take(n as int) =~= v@);
    }
    r
}

/// Appends to `out` every `k`-card combination of `deck[start..]`, each
/// prefixed with the cards already chosen in `prefix`.
fn push_combos(
    deck: &Vec<Card>,
    start: usize,
    k: usize,
    prefix: &mut Vec<Card>,
    out: &mut Vec<Vec<Card>>,
)
    requires
        start <= deck@.len(),
    ensures
        final(prefix)@ == old(prefix)@,
        seqs_of(final(out)@) == seqs_of(old(out)@) + combos(deck@.skip(start as int), k as nat)
            .map_values(|t: Seq<Card>| old(prefix)@ + t),
    decreases deck@.len() - start, k,
{
    let ghost tail = deck@.skip(start as int);
    if k == 0 {
        let copy = copy_cards(prefix);
        out.push(copy);
        proof {
            assert(seqs_of(out@) =~= seqs_of(old(out)@) + combos(tail, 0).map_values(
                |t: Seq<Card>| old(prefix)@ + t,
            )) by {
                assert(combos(tail, 0) == seq![Seq::<Card>::empty()]);
                assert(old(prefix)@ + Seq::<Card>::empty() =~= old(prefix)@);
            }
        }
    } else if start >= deck.len() {
        proof {
            assert(tail.len() == 0);
            assert(combos(tail, k as nat) == Seq::<Seq<Card>>::empty());
            assert(seqs_of(out@) =~= seqs_of(old(out)@) + combos(tail, k as nat).map_values(
                |t: Seq<Card>| old(prefix)@ + t,
            ));
        }
    } else {
        let head = deck[start];
        proof {
            assert(tail.len() > 0);
            assert(tail[0] == deck@[start as int]);
            assert(tail.drop_first() =~= deck@.skip(start + 1));
        }
        prefix.push(head);
        push_combos(deck, start + 1, k - 1, prefix, out);
        prefix.pop();
        proof {
            assert(prefix@ =~= old(prefix)@);
        }
        let ghost mid_out = out@;
        push_combos(deck, start + 1, k, prefix, out);
        proof {
            let with_head = combos(deck@.skip(start + 1), (k - 1) as nat);
            let without = combos(deck@.skip(start + 1), k as nat);
            let f_long = |t: Seq<Card>| (old(prefix)@.push(head)) + t;
            let f_short = |t: Seq<Card>| old(prefix)@ + t;
            // The first recursive call appended the head-taking combinations,
            // the second the head-skipping ones; together they are exactly the
            // decomposition of `combos(tail, k)`.
            assert(seqs_of(mid_out) == seqs_of(old(out)@) + with_head.map_values(f_long));
            assert(seqs_of(out@) == seqs_of(mid_out) + without.map_values(f_short));
            assert(combos(tail, k as nat) == with_head.map_values(|t: Seq<Card>| seq![tail[0]] + t)
                + without);
            assert(seqs_of(out@) =~= seqs_of(old(out)@) + combos(tail, k as nat).map_values(
                f_short,
            )) by {
                assert forall|t: Seq<Card>| true implies f_long(t) == f_short(seq![head] + t) by {
                    assert(old(prefix)@.push(head) + t =~= old(prefix)@ + (seq![head] + t));
                }
                assert(with_head.map_values(f_long) =~= with_head.map_values(
                    |t: Seq<Card>| seq![tail[0]] + t,
                ).map_values(f_short));
            }
        }
    }
}

/// All `k`-card combinations from `cards`, in deterministic deck order.
pub fn combinations(cards: &Vec<Card>, k: usize) -> (r: Vec<Vec<Card>>)
    ensures
        seqs_of(r@) == combos(cards@, k as nat),
{
    let mut prefix: Vec<Card> = Vec::new();
    let mut out: Vec<Vec<Card>> = Vec::new();
    push_combos(cards, 0, k, &mut prefix, &mut out);
    proof {
        assert(cards@.skip(0) =~= cards@);
        assert(combos(cards@, k as nat).map_values(|t: Seq<Card>| Seq::<Card>::empty() + t)
            =~= combos(cards@, k as nat)) by {
            assert forall|i: int| 0 <= i < combos(cards@, k as nat).len() implies Seq::<
                Card,
            >::empty() + combos(cards@, k as nat)[i] == combos(cards@, k as nat)[i] by {
                assert(Seq::<Card>::empty() + combos(cards@, k as nat)[i] =~= combos(
                    cards@,
                    k as nat,
                )[i]);
            }
        }
        assert(seqs_of(out@) =~= combos(cards@, k as nat));
    }
    out
}

} // verus!
