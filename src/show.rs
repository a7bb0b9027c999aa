use vstd::prelude::*;
use itertools::Itertools;
use crate::card::Card;
use crate::hand::{Hand, HandView};
use crate::players::{capped, prev_index, Player, Players, PlayersView, WINNING_SCORE};
use crate::round::RoundError;
use crate::play::points_total;
use crate::run::{all_wf, forms_run, window_is_run};

verus! {

/// The `k`-element selections of the positions `lo..n`, each listed in increasing
/// order, and the selections themselves in lexicographic order.
pub open spec fn combos_from(lo: int, n: int, k: nat) -> Seq<Seq<int>>
    decreases (if lo < n { n - lo } else { 0 }),
{
    if k == 0 {
        seq![Seq::<int>::empty()]
    } else if lo >= n {
        Seq::empty()
    } else {
        combos_from(lo + 1, n, (k - 1) as nat).map_values(|c: Seq<int>| seq![lo] + c) + combos_from(
            lo + 1,
            n,
            k,
        )
    }
}

/// The cards of `s` at the positions `idx`.
pub open spec fn pick(s: Seq<Card>, idx: Seq<int>) -> Seq<Card> {
    idx.map_values(|i: int| s[i])
}

/// Relies on itertools' `combinations`: the `k`-element combinations of the cards,
/// each keeping the cards' order, listed in lexicographic order of their positions.
#[verifier::external_body]
fn combinations_of(v: &Vec<Card>, k: usize) -> (r: Vec<Vec<Card>>)
    ensures
        r@.len() == combos_from(0, v@.len() as int, k as nat).len(),
        forall|i: int|
            0 <= i < r@.len() ==> (#[trigger] r@[i])@ == pick(
                v@,
                combos_from(0, v@.len() as int, k as nat)[i],
            ),
{
    v.iter().cloned().combinations(k).collect()
}

/// Points for one combination of the show: 2 for two cards of one rank, 2 for a
/// total of 15, and one point per card for a run.
pub open spec fn combo_points(c: Seq<Card>) -> int {
    (if c.len() == 2 && c[0].value == c[1].value {
        2int
    } else {
        0
    }) + (if points_total(c) == 15 {
        2int
    } else {
        0
    }) + (if forms_run(c) {
        c.len() as int
    } else {
        0
    })
}

/// The sum of `combo_points` over the given selections of `full`.
pub open spec fn selections_points(full: Seq<Card>, cs: Seq<Seq<int>>) -> int
    decreases cs.len(),
{
    if cs.len() == 0 {
        0
    } else {
        selections_points(full, cs.drop_last()) + combo_points(pick(full, cs.last()))
    }
}

/// The points of all combinations of `full` with 2 to `k` cards.
pub open spec fn sizes_points(full: Seq<Card>, k: nat) -> int
    decreases k,
{
    if k < 2 {
        0
    } else {
        sizes_points(full, (k - 1) as nat) + selections_points(
            full,
            combos_from(0, full.len() as int, k),
        )
    }
}

/// The hand holds the jack of the magic card's suit.
pub open spec fn has_nobs(h: HandView) -> bool {
    h.magic matches Some(m) && exists|i: int|
        0 <= i < h.cards.len() && #[trigger] h.cards[i].value == 'J' && h.cards[i].suit == m.suit
}

/// The magic card followed by the held cards.
pub open spec fn full_hand(h: HandView) -> Seq<Card> {
    seq![h.magic->Some_0] + h.cards
}

/// The show score of a hand with its magic card set: 1 for nobs, plus the points of
/// every combination of two or more cards among the held cards and the magic card.
pub open spec fn show_points(h: HandView) -> int {
    (if has_nobs(h) {
        1int
    } else {
        0
    }) + sizes_points(full_hand(h), full_hand(h).len())
}

pub open spec fn binom(n: nat, k: nat) -> nat
    decreases n,
{
    if k == 0 {
        1
    } else if n == 0 {
        0
    } else {
        binom((n - 1) as nat, (k - 1) as nat) + binom((n - 1) as nat, k)
    }
}

proof fn lemma_combos_shape(lo: int, n: int, k: nat)
    requires
        0 <= lo <= n,
    ensures
        combos_from(lo, n, k).len() == binom((n - lo) as nat, k),
        forall|i: int|
            0 <= i < combos_from(lo, n, k).len() ==> (#[trigger] combos_from(lo, n, k)[i]).len() == k
                && forall|j: int|
                0 <= j < k ==> lo <= #[trigger] combos_from(lo, n, k)[i][j] < n,
    decreases n - lo,
{
    if k == 0 {
    } else if lo >= n {
    } else {
        lemma_combos_shape(lo + 1, n, (k - 1) as nat);
        lemma_combos_shape(lo + 1, n, k);
        let a = combos_from(lo + 1, n, (k - 1) as nat);
        let b = combos_from(lo + 1, n, k);
        let m = a.map_values(|c: Seq<int>| seq![lo] + c);
        assert(combos_from(lo, n, k) == m + b);
        assert forall|i: int| 0 <= i < combos_from(lo, n, k).len() implies (#[trigger] combos_from(
            lo,
            n,
            k,
        )[i]).len() == k && forall|j: int|
            0 <= j < k ==> lo <= #[trigger] combos_from(lo, n, k)[i][j] < n by {
            if i < m.len() {
                assert(combos_from(lo, n, k)[i] == seq![lo] + a[i]);
                assert forall|j: int| 0 <= j < k implies lo <= #[trigger] combos_from(lo, n, k)[i][j] < n by {
                    if j > 0 {
                        assert(combos_from(lo, n, k)[i][j] == a[i][j - 1]);
                    }
                }
            } else {
                assert(combos_from(lo, n, k)[i] == b[i - m.len()]);
            }
        }
    }
}

/// An upper bound on the points of one combination of `k` cards.
pub open spec fn combo_bound(k: nat) -> int {
    if k == 2 {
        4
    } else {
        2 + k as int
    }
}

proof fn lemma_selections_bound(full: Seq<Card>, cs: Seq<Seq<int>>, k: nat)
    requires
        k >= 2,
        forall|i: int| 0 <= i < cs.len() ==> (#[trigger] cs[i]).len() == k,
    ensures
        0 <= selections_points(full, cs) <= cs.len() * combo_bound(k),
    decreases cs.len(),
{
    if cs.len() > 0 {
        lemma_selections_bound(full, cs.drop_last(), k);
        let c = pick(full, cs.last());
        assert(c.len() == k);
        assert(combo_points(c) <= combo_bound(k));
        assert(cs.len() * combo_bound(k) == (cs.len() - 1) * combo_bound(k) + combo_bound(k)) by (nonlinear_arith);
    }
}

proof fn lemma_size_bound(full: Seq<Card>, k: nat)
    requires
        2 <= k,
    ensures
        0 <= selections_points(full, combos_from(0, full.len() as int, k)) <= binom(full.len(), k)
            * combo_bound(k),
{
    lemma_combos_shape(0, full.len() as int, k);
    lemma_selections_bound(full, combos_from(0, full.len() as int, k), k);
}

proof fn lemma_show_bound(full: Seq<Card>)
    requires
        1 <= full.len() <= 5,
    ensures
        0 <= sizes_points(full, full.len()) <= 127,
{
    let n = full.len();
    reveal_with_fuel(binom, 6);
    lemma_size_bound(full, 2);
    lemma_size_bound(full, 3);
    lemma_size_bound(full, 4);
    lemma_size_bound(full, 5);
    let upto_two = sizes_points(full, 2);
    let upto_three = sizes_points(full, 3);
    let upto_four = sizes_points(full, 4);
    let upto_five = sizes_points(full, 5);
    assert(sizes_points(full, 1) == 0);
    assert(upto_two == selections_points(full, combos_from(0, n as int, 2)));
    assert(upto_three == upto_two + selections_points(full, combos_from(0, n as int, 3)));
    assert(upto_four == upto_three + selections_points(full, combos_from(0, n as int, 4)));
    assert(upto_five == upto_four + selections_points(full, combos_from(0, n as int, 5)));
    if n == 1 {
    } else if n == 2 {
        assert(binom(2, 2) == 1);
    } else if n == 3 {
        assert(binom(3, 2) == 3 && binom(3, 3) == 1);
    } else if n == 4 {
        assert(binom(4, 2) == 6 && binom(4, 3) == 4 && binom(4, 4) == 1);
    } else {
        assert(binom(5, 2) == 10 && binom(5, 3) == 10 && binom(5, 4) == 5 && binom(5, 5) == 1);
    }
}

proof fn lemma_binom_small(n: nat, k: nat)
    requires
        2 <= k <= n <= 5,
    ensures
        binom(n, k) <= 10,
{
    reveal_with_fuel(binom, 6);
    if n == 2 {
    } else if n == 3 {
        assert(k == 2 || k == 3);
    } else if n == 4 {
        assert(k == 2 || k == 3 || k == 4);
    } else {
        assert(k == 2 || k == 3 || k == 4 || k == 5);
    }
}

/// The combination earns nothing: it is no pair, its total is not 15, and it is
/// no run.
pub open spec fn scores_nothing(c: Seq<Card>) -> bool {
    !(c.len() == 2 && c[0].value == c[1].value) && points_total(c) != 15 && !forms_run(c)
}

proof fn lemma_combo_points_zero(c: Seq<Card>)
    ensures
        combo_points(c) >= 0,
        combo_points(c) == 0 <==> scores_nothing(c),
{
}

proof fn lemma_selections_zero(full: Seq<Card>, cs: Seq<Seq<int>>)
    ensures
        selections_points(full, cs) >= 0,
        selections_points(full, cs) == 0 <==> forall|i: int|
            0 <= i < cs.len() ==> #[trigger] scores_nothing(pick(full, cs[i])),
    decreases cs.len(),
{
    if cs.len() > 0 {
        let init = cs.drop_last();
        lemma_selections_zero(full, init);
        lemma_combo_points_zero(pick(full, cs.last()));
        if selections_points(full, cs) == 0 {
            assert forall|i: int| 0 <= i < cs.len() implies #[trigger] scores_nothing(pick(full, cs[i])) by {
                if i < init.len() {
                    assert(init[i] == cs[i]);
                }
            }
        }
        if forall|i: int| 0 <= i < cs.len() ==> #[trigger] scores_nothing(pick(full, cs[i])) {
            assert forall|i: int| 0 <= i < init.len() implies #[trigger] scores_nothing(pick(full, init[i])) by {
                assert(init[i] == cs[i]);
            }
            assert(scores_nothing(pick(full, cs[cs.len() - 1])));
        }
    }
}

proof fn lemma_sizes_zero(full: Seq<Card>, k: nat)
    ensures
        sizes_points(full, k) >= 0,
        sizes_points(full, k) == 0 <==> forall|m: nat, i: int|
            2 <= m <= k && 0 <= i < combos_from(0, full.len() as int, m).len() ==> #[trigger] scores_nothing(
                pick(full, combos_from(0, full.len() as int, m)[i]),
            ),
    decreases k,
{
    if k >= 2 {
        let n = full.len() as int;
        lemma_sizes_zero(full, (k - 1) as nat);
        lemma_selections_zero(full, combos_from(0, n, k));
        if sizes_points(full, k) == 0 {
            assert forall|m: nat, i: int|
                2 <= m <= k && 0 <= i < combos_from(0, n, m).len() implies #[trigger] scores_nothing(
                pick(full, combos_from(0, n, m)[i]),
            ) by {}
        }
        if forall|m: nat, i: int|
            2 <= m <= k && 0 <= i < combos_from(0, n, m).len() ==> #[trigger] scores_nothing(
                pick(full, combos_from(0, n, m)[i]),
            ) {
            assert forall|i: int| 0 <= i < combos_from(0, n, k).len() implies #[trigger] scores_nothing(
                pick(full, combos_from(0, n, k)[i]),
            ) by {}
        }
    }
}

/// A hand with its magic card set scores nothing in the show exactly when it does
/// not hold the jack of the magic card's suit and no combination of two or more of
/// its cards and the magic card is a pair, totals 15, or is a run.
pub proof fn lemma_show_zero(h: HandView)
    requires
        h.magic is Some,
    ensures
        show_points(h) == 0 <==> !has_nobs(h) && forall|m: nat, i: int|
            2 <= m <= full_hand(h).len() && 0 <= i < combos_from(0, full_hand(h).len() as int, m).len()
                ==> #[trigger] scores_nothing(pick(full_hand(h), combos_from(0, full_hand(h).len() as int, m)[i])),
{
    lemma_sizes_zero(full_hand(h), full_hand(h).len());
}

/// Tells whether the hand's cards hold the jack of the given suit.
fn holds_nobs(cards: &[Card], magic: &Card) -> (r: bool)
    ensures
        r == exists|i: int|
            0 <= i < cards@.len() && #[trigger] cards@[i].value == 'J' && cards@[i].suit == magic.suit,
{
    let mut i: usize = 0;
    while i < cards.len()
        invariant
            i <= cards@.len(),
            forall|j: int| 0 <= j < i ==> !(#[trigger] cards@[j].value == 'J' && cards@[j].suit == magic.suit),
        decreases cards@.len() - i,
    {
        if cards[i].value == 'J' && cards[i].suit == magic.suit {
            return true;
        }
        i += 1;
    }
    false
}

/// The points of one combination.
fn combo_score(c: &Vec<Card>) -> (r: u8)
    requires
        all_wf(c@),
        c@.len() <= 5,
    ensures
        r == combo_points(c@),
{
    let mut score: u8 = 0;
    if c.len() == 2 && c[0].value == c[1].value {
        score += 2;
    }
    let mut sum: u8 = 0;
    let mut i: usize = 0;
    while i < c.len()
        invariant
            i <= c@.len() <= 5,
            all_wf(c@),
            sum == points_total(c@.take(i as int)),
            sum <= 10 * i,
        decreases c@.len() - i,
    {
        proof {
            assert(c@.take(i + 1).drop_last() =~= c@.take(i as int));
            assert(c@[i as int].wf());
        }
        sum += c[i].score_value();
        i += 1;
    }
    proof {
        assert(c@.take(c@.len() as int) =~= c@);
    }
    if sum == 15 {
        score += 2;
    }
    proof {
        assert(c@.skip(0) =~= c@);
    }
    if window_is_run(c, 0) {
        score += c.len() as u8;
    }
    score
}

/// A hand that the show can score: its magic card is set, it holds at most four
/// cards, and all its cards are well formed.
pub open spec fn scoreable(h: HandView) -> bool {
    h.magic matches Some(m) && m.wf() && h.cards.len() <= 4 && all_wf(h.cards)
}

/// Every player has a hand to show and it can be scored, and so can the crib.
pub open spec fn show_ready(p: PlayersView, crib: HandView) -> bool {
    &&& scoreable(crib)
    &&& forall|i: int|
        0 <= i < p.players.len() ==> (#[trigger] p.players[i]).hand is Some && scoreable(
            p.players[i].hand->Some_0@,
        )
}

/// The player with `pts` show points added.
pub open spec fn shown(pl: Player, pts: int) -> Player {
    Player {
        score: capped(pl.score + pts, WINNING_SCORE as int) as u8,
        show_score: capped(pl.show_score + pts, 255) as u8,
        ..pl
    }
}

/// The player with the points of their own hand added.
pub open spec fn hand_shown(pl: Player) -> Player {
    shown(pl, show_points(pl.hand->Some_0@))
}

/// The players after the show: each scores their hand, and this round's dealer
/// (the one before the dealer cursor) then also scores the crib.
pub open spec fn show_scored(p: PlayersView, crib: HandView) -> PlayersView {
    PlayersView {
        players: Seq::new(
            p.players.len(),
            |i: int|
                if i == prev_index(p.dealer, p.players.len() as int) {
                    shown(hand_shown(p.players[i]), show_points(crib))
                } else {
                    hand_shown(p.players[i])
                },
        ),
        ..p
    }
}

/// Scores the show: every player's hand, then the crib for this round's dealer.
/// Refused, changing nothing, unless every hand and the crib can be scored.
pub fn score_show(players: &mut Players, crib: &Hand) -> (r: Result<(), RoundError>)
    requires
        old(players).wf(),
    ensures
        final(players).wf(),
        r is Ok <==> show_ready(old(players)@, crib@),
        r is Err ==> r == Err::<(), RoundError>(RoundError::Unscoreable) && final(players)@ == old(players)@,
        r is Ok ==> final(players)@ == show_scored(old(players)@, crib@),
{
    if !crib.is_scoreable() {
        return Err(RoundError::Unscoreable);
    }
    let n = players.len();
    let mut i: usize = 0;
    while i < n
        invariant
            i <= n,
            n == players@.players.len(),
            players@ == old(players)@,
            players.wf(),
            scoreable(crib@),
            forall|k: int| 0 <= k < i ==> (#[trigger] players@.players[k]).hand is Some && scoreable(
                players@.players[k].hand->Some_0@,
            ),
        decreases n - i,
    {
        match &players.player(i).hand {
            Some(h) => {
                if !h.is_scoreable() {
                    return Err(RoundError::Unscoreable);
                }
            },
            None => {
                return Err(RoundError::Unscoreable);
            },
        }
        i += 1;
    }
    let ghost before = players@;
    let mut i: usize = 0;
    while i < n
        invariant
            i <= n,
            n == before.players.len(),
            players.wf(),
            players@.players.len() == n,
            players@.dealer == before.dealer,
            players@.turn == before.turn,
            show_ready(before, crib@),
            forall|k: int| 0 <= k < i ==> (#[trigger] players@.players[k]) == hand_shown(before.players[k]),
            forall|k: int| i <= k < n ==> (#[trigger] players@.players[k]) == before.players[k],
        decreases n - i,
    {
        let s = players.player(i).hand().score();
        let ghost mid = players@;
        players.add_show_score(i, s);
        proof {
            assert(players@.players[i as int] == hand_shown(before.players[i as int]));
            assert forall|k: int| 0 <= k < n && k != i implies (#[trigger] players@.players[k]) == mid.players[k] by {}
        }
        i += 1;
    }
    let d = players.current_dealer();
    let c = crib.score();
    let ghost mid = players@;
    players.add_show_score(d, c);
    proof {
        assert(players@.players[d as int] == shown(mid.players[d as int], show_points(crib@)));
        assert(players@.players =~= show_scored(before, crib@).players);
    }
    Ok(())
}

impl Hand {
    /// The hand can be scored for the show: its magic card is set, it holds at most
    /// four cards, and all its cards are well formed.
    pub fn is_scoreable(&self) -> (r: bool)
        ensures
            r == scoreable(self@),
    {
        let magic = match self.magic() {
            Some(m) => *m,
            None => {
                return false;
            },
        };
        if !crate::card::is_rank_char(magic.value) || self.len() > 4 {
            return false;
        }
        let cards = self.cards();
        let mut i: usize = 0;
        while i < cards.len()
            invariant
                i <= cards@.len(),
                cards@ == self@.cards,
                forall|k: int| 0 <= k < i ==> (#[trigger] cards@[k]).wf(),
            decreases cards@.len() - i,
        {
            if !crate::card::is_rank_char(cards[i].value) {
                return false;
            }
            i += 1;
        }
        true
    }

    /// Scores the hand for the show, magic card included.
    pub fn score(&self) -> (r: u8)
        requires
            self@.magic matches Some(m) && m.wf(),
            self@.cards.len() <= 4,
            all_wf(self@.cards),
        ensures
            r == show_points(self@),
    {
        let magic = *self.magic().unwrap();
        let cards = self.cards();
        let mut total: u32 = if holds_nobs(cards, &magic) {
            1
        } else {
            0
        };
        let ghost nobs = total as int;
        let mut full: Vec<Card> = Vec::new();
        full.push(magic);
        let mut i: usize = 0;
        while i < cards.len()
            invariant
                i <= cards@.len(),
                cards@ == self@.cards,
                full@ == seq![magic] + cards@.take(i as int),
            decreases cards@.len() - i,
        {
            full.push(cards[i]);
            i += 1;
            proof {
                assert(full@ =~= seq![magic] + cards@.take(i as int));
            }
        }
        proof {
            assert(cards@.take(cards@.len() as int) =~= cards@);
            assert(full@ =~= full_hand(self@));
            assert(all_wf(full@));
        }
        let ghost f = full@;
        let n = full.len();
        let mut k: usize = 2;
        while k <= n
            invariant
                2 <= k <= n + 1,
                n == f.len(),
                1 <= n <= 5,
                f == full@,
                all_wf(f),
                total == nobs + sizes_points(f, (k - 1) as nat),
                0 <= sizes_points(f, (k - 1) as nat) <= 70 * (k - 2),
                0 <= nobs <= 1,
            decreases n + 1 - k,
        {
            let cs = combinations_of(&full, k);
            let ghost sel = combos_from(0, n as int, k as nat);
            proof {
                lemma_combos_shape(0, n as int, k as nat);
                lemma_binom_small(n as nat, k as nat);
            }
            let mut j: usize = 0;
            let ghost before = total as int;
            while j < cs.len()
                invariant
                    j <= cs@.len(),
                    cs@.len() == sel.len(),
                    cs@.len() <= 10,
                    sel == combos_from(0, n as int, k as nat),
                    forall|a: int| 0 <= a < cs@.len() ==> (#[trigger] cs@[a])@ == pick(f, sel[a]),
                    forall|a: int|
                        0 <= a < sel.len() ==> (#[trigger] sel[a]).len() == k && forall|b: int|
                            0 <= b < k ==> 0 <= #[trigger] sel[a][b] < n,
                    n == f.len(),
                    n <= 5,
                    2 <= k <= n,
                    all_wf(f),
                    total == before + selections_points(f, sel.take(j as int)),
                    0 <= selections_points(f, sel.take(j as int)) <= 7 * j,
                    before <= 1 + 70 * (k - 2),
                decreases cs@.len() - j,
            {
                proof {
                    assert(sel.take(j + 1).drop_last() =~= sel.take(j as int));
                    let c = cs@[j as int]@;
                    assert(c == pick(f, sel[j as int]));
                    assert forall|t: int| 0 <= t < c.len() implies (#[trigger] c[t]).wf() by {
                        assert(f[sel[j as int][t]].wf());
                    }
                    assert(combo_points(c) <= 7) by {
                        assert(c.len() == k);
                    }
                    assert(combo_points(c) >= 0);
                }
                let s = combo_score(&cs[j]);
                total = total + s as u32;
                j += 1;
            }
            proof {
                assert(sel.take(sel.len() as int) =~= sel);
            }
            k += 1;
        }
        proof {
            lemma_show_bound(f);
        }
        total as u8
    }
}

} // verus!
