use vstd::prelude::*;
use crate::hand::Hand;

verus! {

/// The winning score; a player's score never goes past it.
pub const WINNING_SCORE: u8 = 121;

pub open spec fn capped(total: int, cap: int) -> int {
    if total > cap {
        cap
    } else {
        total
    }
}

/// One participant, as every peer tracks it.
pub struct Player {
    pub name: String,
    /// The game score, from 0 to 121.
    pub score: u8,
    /// Points from the play in this round.
    pub play_score: u8,
    /// Points from the show in this round.
    pub show_score: u8,
    /// The hand shown in this round, once known.
    pub hand: Option<Hand>,
    /// Out of cards in this play phase.
    pub finished: bool,
}

impl Player {
    pub fn from_name(name: String) -> (r: Player)
        ensures
            r.name == name,
            r.score == 0,
            r.play_score == 0,
            r.show_score == 0,
            r.hand is None,
            !r.finished,
    {
        Player { name, score: 0, play_score: 0, show_score: 0, hand: None, finished: false }
    }

    /// Adds play points: the game score stops at 121, the round's tally at 255.
    pub fn add_play_score(&mut self, score: u8)
        ensures
            final(self).score == capped(old(self).score + score, WINNING_SCORE as int),
            final(self).play_score == capped(old(self).play_score + score, 255),
            final(self).show_score == old(self).show_score,
            final(self).name == old(self).name,
            final(self).hand == old(self).hand,
            final(self).finished == old(self).finished,
    {
        self.play_score = add_capped(self.play_score, score, 255);
        self.score = add_capped(self.score, score, WINNING_SCORE);
    }

    /// Adds show points: the game score stops at 121, the round's tally at 255.
    pub fn add_show_score(&mut self, score: u8)
        ensures
            final(self).score == capped(old(self).score + score, WINNING_SCORE as int),
            final(self).show_score == capped(old(self).show_score + score, 255),
            final(self).play_score == old(self).play_score,
            final(self).name == old(self).name,
            final(self).hand == old(self).hand,
            final(self).finished == old(self).finished,
    {
        self.show_score = add_capped(self.show_score, score, 255);
        self.score = add_capped(self.score, score, WINNING_SCORE);
    }

    pub fn hand(&self) -> (r: &Hand)
        requires
            self.hand is Some,
        ensures
            *r == self.hand->Some_0,
    {
        self.hand.as_ref().unwrap()
    }
}

fn add_capped(a: u8, b: u8, cap: u8) -> (r: u8)
    ensures
        r == capped(a + b, cap as int),
{
    let total = a as u16 + b as u16;
    if total > cap as u16 {
        cap
    } else {
        total as u8
    }
}

/// The participants in play order, with the dealer cursor and the turn cursor.
pub struct Players {
    players: Vec<Player>,
    dealer_index: usize,
    player_index: usize,
}

/// The players in play order, who deals next, and whose turn is next.
pub struct PlayersView {
    pub players: Seq<Player>,
    pub dealer: int,
    pub turn: int,
}

impl View for Players {
    type V = PlayersView;

    closed spec fn view(&self) -> PlayersView {
        PlayersView { players: self.players@, dealer: self.dealer_index as int, turn: self.player_index as int }
    }
}

/// The position after `i` among `n`, wrapping round.
pub open spec fn next_index(i: int, n: int) -> int {
    (i + 1) % n
}

/// The position before `i` among `n`, wrapping round.
pub open spec fn prev_index(i: int, n: int) -> int {
    (i + n - 1) % n
}

impl Players {
    /// There is a player, and both cursors point at one.
    pub open spec fn wf(&self) -> bool {
        &&& self@.players.len() > 0
        &&& 0 <= self@.dealer < self@.players.len()
        &&& 0 <= self@.turn < self@.players.len()
    }

    /// Only the player at `i` may differ from `before`: the other players and the
    /// cursors are the same.
    pub open spec fn only_player_changed(&self, before: &Players, i: int) -> bool {
        &&& self@.players.len() == before@.players.len()
        &&& self@.dealer == before@.dealer
        &&& self@.turn == before@.turn
        &&& forall|j: int| 0 <= j < self@.players.len() && j != i ==> self@.players[j] == before@.players[j]
    }

    pub fn from(names: Vec<String>) -> (r: Players)
        requires
            names@.len() > 0,
        ensures
            r.wf(),
            r@.dealer == 0,
            r@.turn == 0,
            r@.players.len() == names@.len(),
            forall|i: int|
                0 <= i < names@.len() ==> (#[trigger] r@.players[i]).name == names@[i] && r@.players[i].score
                    == 0 && r@.players[i].play_score == 0 && r@.players[i].show_score == 0
                    && r@.players[i].hand is None && !r@.players[i].finished,
    {
        let mut players: Vec<Player> = Vec::new();
        let mut i: usize = 0;
        while i < names.len()
            invariant
                i <= names@.len(),
                players@.len() == i,
                forall|k: int|
                    0 <= k < i ==> (#[trigger] players@[k]).name == names@[k] && players@[k].score == 0
                        && players@[k].play_score == 0 && players@[k].show_score == 0
                        && players@[k].hand is None && !players@[k].finished,
            decreases names@.len() - i,
        {
            players.push(Player::from_name(names[i].clone()));
            i += 1;
        }
        Players { players, dealer_index: 0, player_index: 0 }
    }

    pub fn len(&self) -> (r: usize)
        ensures
            r == self@.players.len(),
    {
        self.players.len()
    }

    /// Moves the dealer cursor on by one and returns who deals this round.
    pub fn next_dealer(&mut self) -> (r: usize)
        requires
            old(self).wf(),
        ensures
            final(self).wf(),
            r == old(self)@.dealer,
            final(self)@.dealer == next_index(old(self)@.dealer, old(self)@.players.len() as int),
            final(self)@.turn == old(self)@.turn,
            final(self)@.players == old(self)@.players,
    {
        let dealer = self.dealer_index;
        let len = self.players.len();
        proof {
            lemma_next_index(dealer as int, self.players@.len() as int);
        }
        self.dealer_index = if dealer + 1 == len {
            0
        } else {
            dealer + 1
        };
        dealer
    }

    /// Who deals this round, once `next_dealer` has moved the cursor on.
    pub fn current_dealer(&self) -> (r: usize)
        requires
            self.wf(),
        ensures
            r == prev_index(self@.dealer, self@.players.len() as int),
    {
        proof {
            lemma_prev_index(self.dealer_index as int, self.players@.len() as int);
        }
        if self.dealer_index == 0 {
            self.players.len() - 1
        } else {
            self.dealer_index - 1
        }
    }

    /// Starts a play or a show: the turn goes to the player after this round's
    /// dealer, and no one is out of cards.
    pub fn start_play(&mut self)
        requires
            old(self).wf(),
        ensures
            final(self).wf(),
            final(self)@.turn == old(self)@.dealer,
            final(self)@.dealer == old(self)@.dealer,
            final(self)@.players.len() == old(self)@.players.len(),
            forall|i: int|
                0 <= i < final(self)@.players.len() ==> !(#[trigger] final(self)@.players[i]).finished
                    && final(self)@.players[i].name == old(self)@.players[i].name
                    && final(self)@.players[i].score == old(self)@.players[i].score
                    && final(self)@.players[i].play_score == old(self)@.players[i].play_score
                    && final(self)@.players[i].show_score == old(self)@.players[i].show_score
                    && final(self)@.players[i].hand == old(self)@.players[i].hand,
    {
        self.player_index = self.dealer_index;
        let mut i: usize = 0;
        while i < self.players.len()
            invariant
                self.wf(),
                self.player_index == old(self).dealer_index,
                self.dealer_index == old(self).dealer_index,
                i <= self@.players.len(),
                self@.players.len() == old(self)@.players.len(),
                forall|k: int|
                    0 <= k < self@.players.len() ==> (#[trigger] self@.players[k]).name == old(self)@.players[k].name && self@.players[k].score == old(self)@.players[k].score
                        && self@.players[k].play_score == old(self)@.players[k].play_score
                        && self@.players[k].show_score == old(self)@.players[k].show_score
                        && self@.players[k].hand == old(self)@.players[k].hand,
                forall|k: int| 0 <= k < i ==> !(#[trigger] self@.players[k]).finished,
            decreases old(self)@.players.len() - i,
        {
            self.players[i].finished = false;
            i += 1;
        }
    }

    /// Returns whose turn it is and moves the turn cursor on by one.
    pub fn next_player(&mut self) -> (r: usize)
        requires
            old(self).wf(),
        ensures
            final(self).wf(),
            r == old(self)@.turn,
            final(self)@.turn == next_index(old(self)@.turn, old(self)@.players.len() as int),
            final(self)@.dealer == old(self)@.dealer,
            final(self)@.players == old(self)@.players,
    {
        let player = self.player_index;
        let len = self.players.len();
        proof {
            lemma_next_index(player as int, self.players@.len() as int);
        }
        self.player_index = if player + 1 == len {
            0
        } else {
            player + 1
        };
        player
    }

    /// Whose turn it is.
    pub fn peek_player(&self) -> (r: usize)
        requires
            self.wf(),
        ensures
            r == self@.turn,
    {
        self.player_index
    }

    /// Moves the turn cursor back by one.
    pub fn decrement_player(&mut self)
        requires
            old(self).wf(),
        ensures
            final(self).wf(),
            final(self)@.turn == prev_index(old(self)@.turn, old(self)@.players.len() as int),
            final(self)@.dealer == old(self)@.dealer,
            final(self)@.players == old(self)@.players,
    {
        proof {
            lemma_prev_index(self.player_index as int, self.players@.len() as int);
        }
        self.player_index = if self.player_index == 0 {
            self.players.len() - 1
        } else {
            self.player_index - 1
        };
    }

    /// Every player is out of cards.
    pub fn players_finished(&self) -> (r: bool)
        ensures
            r == forall|i: int| 0 <= i < self@.players.len() ==> (#[trigger] self@.players[i]).finished,
    {
        let mut i: usize = 0;
        while i < self.players.len()
            invariant
                i <= self@.players.len(),
                forall|k: int| 0 <= k < i ==> (#[trigger] self@.players[k]).finished,
            decreases self@.players.len() - i,
        {
            if !self.players[i].finished {
                return false;
            }
            i += 1;
        }
        true
    }

    /// Clears what belongs to one round: the round's tallies, the hands, and who is out.
    pub fn reset_round(&mut self)
        ensures
            final(self)@.dealer == old(self)@.dealer,
            final(self)@.turn == old(self)@.turn,
            final(self)@.players.len() == old(self)@.players.len(),
            forall|i: int|
                0 <= i < final(self)@.players.len() ==> (#[trigger] final(self)@.players[i]).play_score == 0
                    && final(self)@.players[i].show_score == 0 && final(self)@.players[i].hand is None
                    && !final(self)@.players[i].finished && final(self)@.players[i].name == old(self)@.players[i].name && final(self)@.players[i].score == old(self)@.players[i].score,
    {
        let mut i: usize = 0;
        while i < self.players.len()
            invariant
                self.player_index == old(self).player_index,
                self.dealer_index == old(self).dealer_index,
                i <= self@.players.len(),
                self@.players.len() == old(self)@.players.len(),
                forall|k: int|
                    0 <= k < self@.players.len() ==> (#[trigger] self@.players[k]).name == old(self)@.players[k].name && self@.players[k].score == old(self)@.players[k].score,
                forall|k: int|
                    0 <= k < i ==> (#[trigger] self@.players[k]).play_score == 0
                        && self@.players[k].show_score == 0 && self@.players[k].hand is None
                        && !self@.players[k].finished,
            decreases old(self)@.players.len() - i,
        {
            self.players[i].play_score = 0;
            self.players[i].show_score = 0;
            self.players[i].hand = None;
            self.players[i].finished = false;
            i += 1;
        }
    }

    /// The highest score.
    pub fn max_score(&self) -> (r: u8)
        requires
            self@.players.len() > 0,
        ensures
            exists|i: int| 0 <= i < self@.players.len() && r == (#[trigger] self@.players[i]).score,
            forall|i: int| 0 <= i < self@.players.len() ==> (#[trigger] self@.players[i]).score <= r,
    {
        let i = self.player_with_max_score();
        self.players[i].score
    }

    /// The player with the highest score; of several with it, the last in play order.
    pub fn player_with_max_score(&self) -> (r: usize)
        requires
            self@.players.len() > 0,
        ensures
            r < self@.players.len(),
            forall|i: int| 0 <= i < self@.players.len() ==> (#[trigger] self@.players[i]).score <= self@.players[r as int].score,
            forall|i: int| r < i < self@.players.len() ==> (#[trigger] self@.players[i]).score < self@.players[r as int].score,
    {
        let mut best: usize = 0;
        let mut i: usize = 1;
        while i < self.players.len()
            invariant
                1 <= i <= self@.players.len(),
                best < i,
                forall|k: int| 0 <= k < i ==> (#[trigger] self@.players[k]).score <= self@.players[best as int].score,
                forall|k: int| best < k < i ==> (#[trigger] self@.players[k]).score < self@.players[best as int].score,
            decreases self@.players.len() - i,
        {
            if self.players[i].score >= self.players[best].score {
                best = i;
            }
            i += 1;
        }
        best
    }

    /// Adds play points to the player at `i`.
    pub fn add_play_score(&mut self, i: usize, score: u8)
        requires
            i < old(self)@.players.len(),
        ensures
            final(self).only_player_changed(old(self), i as int),
            final(self)@.players[i as int].score == capped(old(self)@.players[i as int].score + score, WINNING_SCORE as int),
            final(self)@.players[i as int].play_score == capped(old(self)@.players[i as int].play_score + score, 255),
            final(self)@.players[i as int].show_score == old(self)@.players[i as int].show_score,
            final(self)@.players[i as int].name == old(self)@.players[i as int].name,
            final(self)@.players[i as int].hand == old(self)@.players[i as int].hand,
            final(self)@.players[i as int].finished == old(self)@.players[i as int].finished,
    {
        self.players[i].add_play_score(score);
    }

    /// Adds show points to the player at `i`.
    pub fn add_show_score(&mut self, i: usize, score: u8)
        requires
            i < old(self)@.players.len(),
        ensures
            final(self).only_player_changed(old(self), i as int),
            final(self)@.players[i as int].score == capped(old(self)@.players[i as int].score + score, WINNING_SCORE as int),
            final(self)@.players[i as int].show_score == capped(old(self)@.players[i as int].show_score + score, 255),
            final(self)@.players[i as int].play_score == old(self)@.players[i as int].play_score,
            final(self)@.players[i as int].name == old(self)@.players[i as int].name,
            final(self)@.players[i as int].hand == old(self)@.players[i as int].hand,
            final(self)@.players[i as int].finished == old(self)@.players[i as int].finished,
    {
        self.players[i].add_show_score(score);
    }

    /// Records the hand that the player at `i` shows.
    pub fn set_hand(&mut self, i: usize, hand: Hand)
        requires
            i < old(self)@.players.len(),
        ensures
            final(self).only_player_changed(old(self), i as int),
            final(self)@.players[i as int] == (Player { hand: Some(hand), ..old(self)@.players[i as int] }),
    {
        self.players[i].hand = Some(hand);
    }

    /// The player at `i`.
    pub fn player(&self, i: usize) -> (r: &Player)
        requires
            i < self@.players.len(),
        ensures
            *r == self@.players[i as int],
    {
        &self.players[i]
    }

    /// Steps the turn cursor back by two, to line up with a participant that reported
    /// the end of its play segment.
    pub fn resync(&mut self)
        requires
            old(self).wf(),
        ensures
            final(self).wf(),
            final(self)@.turn == prev_index(prev_index(old(self)@.turn, old(self)@.players.len() as int), old(self)@.players.len() as int),
            final(self)@.dealer == old(self)@.dealer,
            final(self)@.players == old(self)@.players,
    {
        self.decrement_player();
        self.decrement_player();
    }

    /// Marks the player at `i` as out of cards.
    pub fn mark_finished(&mut self, i: usize)
        requires
            i < old(self)@.players.len(),
        ensures
            final(self).only_player_changed(old(self), i as int),
            final(self)@.players[i as int].finished,
            final(self)@.players[i as int].score == old(self)@.players[i as int].score,
            final(self)@.players[i as int].play_score == old(self)@.players[i as int].play_score,
            final(self)@.players[i as int].show_score == old(self)@.players[i as int].show_score,
            final(self)@.players[i as int].name == old(self)@.players[i as int].name,
            final(self)@.players[i as int].hand == old(self)@.players[i as int].hand,
    {
        self.players[i].finished = true;
    }
}

/// Turn rotation closes: from any position, `n` steps to the next player lead back
/// to the same position.
pub open spec fn advance(i: int, n: int, k: nat) -> int
    decreases k,
{
    if k == 0 {
        i
    } else {
        next_index(advance(i, n, (k - 1) as nat), n)
    }
}

/// After `n` calls of `next_player` among `n` players, the turn is back where it started.
pub proof fn lemma_turn_cycle(i: int, n: int)
    requires
        0 <= i < n,
    ensures
        advance(i, n, n as nat) == i,
{
    lemma_advance(i, n, n as nat);
    assert((i + n) % n == i) by {
        vstd::arithmetic::div_mod::lemma_mod_add_multiples_vanish(i, n);
        vstd::arithmetic::div_mod::lemma_small_mod(i as nat, n as nat);
    }
}

/// After `k` steps from position `i` among `n`, the turn is at `(i + k) % n`.
pub proof fn lemma_advance(i: int, n: int, k: nat)
    requires
        0 <= i < n,
    ensures
        advance(i, n, k) == (i + k) % n,
    decreases k,
{
    if k > 0 {
        lemma_advance(i, n, (k - 1) as nat);
        let j = (i + k - 1) % n;
        vstd::arithmetic::div_mod::lemma_mod_bound(i + k - 1, n);
        lemma_next_index(j, n);
        vstd::arithmetic::div_mod::lemma_fundamental_div_mod(i + k - 1, n);
        let q = (i + k - 1) / n;
        if j + 1 == n {
            vstd::arithmetic::div_mod::lemma_mod_multiples_basic(q + 1, n);
            assert(i + k == (q + 1) * n) by (nonlinear_arith)
                requires
                    i + k - 1 == n * q + j,
                    j + 1 == n,
            ;
        } else {
            vstd::arithmetic::div_mod::lemma_mod_multiples_vanish(q, j + 1, n);
            vstd::arithmetic::div_mod::lemma_small_mod((j + 1) as nat, n as nat);
            assert(i + k == n * q + (j + 1));
            assert((n * q + (j + 1)) % n == j + 1);
        }
        assert(advance(i, n, k) == next_index(j, n));
    } else {
        vstd::arithmetic::div_mod::lemma_small_mod(i as nat, n as nat);
    }
}

proof fn lemma_next_index(i: int, n: int)
    requires
        0 <= i < n,
    ensures
        next_index(i, n) == if i + 1 == n {
            0
        } else {
            i + 1
        },
{
    if i + 1 == n {
        vstd::arithmetic::div_mod::lemma_mod_self_0(n);
    } else {
        vstd::arithmetic::div_mod::lemma_small_mod((i + 1) as nat, n as nat);
    }
}

proof fn lemma_prev_index(i: int, n: int)
    requires
        0 <= i < n,
    ensures
        prev_index(i, n) == if i == 0 {
            n - 1
        } else {
            i - 1
        },
{
    if i == 0 {
        vstd::arithmetic::div_mod::lemma_small_mod((n - 1) as nat, n as nat);
    } else {
        vstd::arithmetic::div_mod::lemma_mod_add_multiples_vanish(i - 1, n);
        vstd::arithmetic::div_mod::lemma_small_mod((i - 1) as nat, n as nat);
    }
}

/// Player `j` comes up within one full cycle of turns from position `i` among `n`.
pub open spec fn comes_up(i: int, n: int, j: int) -> bool {
    exists|k: nat| k < n && #[trigger] advance(i, n, k) == j
}

/// One full cycle of turns from position `i` among `n` players: the `k`-th step
/// (from 0) is at `(i + k) % n`, and every player comes up exactly once.
pub proof fn lemma_turn_order(i: int, n: int)
    requires
        0 <= i < n,
    ensures
        forall|k: nat| k < n ==> #[trigger] advance(i, n, k) == (i + k) % n,
        forall|k1: nat, k2: nat|
            k1 < n && k2 < n && k1 != k2 ==> #[trigger] advance(i, n, k1) != #[trigger] advance(i, n, k2),
        forall|j: int| 0 <= j < n ==> #[trigger] comes_up(i, n, j),
{
    assert forall|k: nat| k < n implies #[trigger] advance(i, n, k) == (i + k) % n by {
        lemma_advance(i, n, k);
    }
    assert forall|k1: nat, k2: nat|
        k1 < n && k2 < n && k1 != k2 implies #[trigger] advance(i, n, k1) != #[trigger] advance(i, n, k2) by {
        lemma_advance(i, n, k1);
        lemma_advance(i, n, k2);
        lemma_step_value(i, n, k1);
        lemma_step_value(i, n, k2);
    }
    assert forall|j: int| 0 <= j < n implies #[trigger] comes_up(i, n, j) by {
        let k: nat = if j >= i { (j - i) as nat } else { (j - i + n) as nat };
        lemma_advance(i, n, k);
        lemma_step_value(i, n, k);
    }
}

proof fn lemma_step_value(i: int, n: int, k: nat)
    requires
        0 <= i < n,
        k < n,
    ensures
        (i + k) % n == if i + k < n {
            i + k
        } else {
            i + k - n
        },
{
    if i + k < n {
        vstd::arithmetic::div_mod::lemma_small_mod((i + k) as nat, n as nat);
    } else {
        vstd::arithmetic::div_mod::lemma_mod_sub_multiples_vanish(i + k, n);
        vstd::arithmetic::div_mod::lemma_small_mod((i + k - n) as nat, n as nat);
    }
}

} // verus!
