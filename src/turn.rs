use vstd::prelude::*;
use crate::card::Card;
use crate::frame::{Frame, FrameView};
use crate::hand::Hand;
use crate::round::RoundError;
use crate::play::{matching, play_points, points_total, score_play, tail_matching};
use crate::players::{capped, next_index, prev_index, Player, Players, PlayersView, WINNING_SCORE};
use crate::run::all_wf;

verus! {

/// The highest running total of a play segment.
pub const MAX_COUNT: u8 = 31;

/// What a turn of the play led to.
#[derive(Clone, Copy, Debug, PartialEq, Eq, Structural)]
pub enum PlayOutcome {
    /// The segment goes on.
    Continue,
    /// The segment ended, by a go or by reaching 31; the turn cursor has stepped back
    /// by one. Holds the player whose turn the coordinator expects next.
    SegmentEnd(usize),
    /// Every player is out of cards: the play phase is over.
    PhaseEnd,
}

/// Why a move was refused; the state is left as it was.
#[derive(Clone, Copy, Debug, PartialEq, Eq, Structural)]
pub enum PlayError {
    /// The card's rank is none of the thirteen symbols.
    BadCard,
    /// The card would take the running total past 31.
    OverCount,
    /// The card would be the fifth in a row of one rank.
    FifthOfARank,
}

/// The state of one play segment.
pub struct PlayView {
    /// The cards played in this segment, in order.
    pub history: Seq<Card>,
    /// The running total of their face values.
    pub count: int,
    /// How many turns in a row passed without a card.
    pub go_count: int,
    /// Who played the segment's last card.
    pub last: Option<int>,
}

/// The play state that every peer keeps while the play phase runs.
pub struct PlayState {
    history: Vec<Card>,
    count: u8,
    go_count: usize,
    last_player: Option<usize>,
}

impl View for PlayState {
    type V = PlayView;

    closed spec fn view(&self) -> PlayView {
        PlayView {
            history: self.history@,
            count: self.count as int,
            go_count: self.go_count as int,
            last: match self.last_player {
                Some(i) => Some(i as int),
                None => None,
            },
        }
    }
}

/// A segment state for `n` players that the play can reach.
pub open spec fn play_wf(s: PlayView, n: int) -> bool {
    &&& all_wf(s.history)
    &&& s.count == points_total(s.history)
    &&& 0 <= s.count <= MAX_COUNT
    &&& matching(s.history) <= 4
    &&& 0 <= s.go_count < n
    &&& s.last matches Some(l) ==> 0 <= l < n
}

pub open spec fn fresh_segment() -> PlayView {
    PlayView { history: Seq::empty(), count: 0, go_count: 0, last: None }
}

/// The players with `pts` play points given to the player at `i`.
pub open spec fn award(p: PlayersView, i: int, pts: int) -> PlayersView {
    PlayersView {
        players: p.players.update(
            i,
            Player {
                score: capped(p.players[i].score + pts, WINNING_SCORE as int) as u8,
                play_score: capped(p.players[i].play_score + pts, 255) as u8,
                ..p.players[i]
            },
        ),
        ..p
    }
}

/// The players with the player at `i` marked out of cards.
pub open spec fn mark_out(p: PlayersView, i: int) -> PlayersView {
    PlayersView { players: p.players.update(i, Player { finished: true, ..p.players[i] }), ..p }
}

pub open spec fn all_out(p: PlayersView) -> bool {
    forall|i: int| 0 <= i < p.players.len() ==> (#[trigger] p.players[i]).finished
}

/// Why `card` may not be played onto `s`, if it may not.
pub open spec fn move_error(s: PlayView, card: Option<Card>) -> Option<PlayError> {
    match card {
        Some(c) => if !c.wf() {
            Some(PlayError::BadCard)
        } else if s.count + c.points() > MAX_COUNT {
            Some(PlayError::OverCount)
        } else if matching(s.history.push(c)) > 4 {
            Some(PlayError::FifthOfARank)
        } else {
            None
        },
        None => None,
    }
}

/// Ends a segment: a fresh segment, and the turn cursor one step back.
pub open spec fn end_segment(p: PlayersView) -> (PlayView, PlayersView, Result<PlayOutcome, PlayError>) {
    (
        fresh_segment(),
        PlayersView { turn: prev_index(p.turn, p.players.len() as int), ..p },
        Ok(PlayOutcome::SegmentEnd(p.turn as usize)),
    )
}

/// One turn of the play, for the player whose turn it is: `card` is what they
/// played, if anything, and `out` whether they are now out of cards.
/// A card scores `play_points` for its player. When every player in a row has passed,
/// whoever played the segment's last card scores 1 and the segment ends. When a
/// player is out, they are marked; once all are, whoever played last scores 1
/// unless the count is 31, and the play phase ends. A count of 31 ends the segment.
pub open spec fn turn_step(s: PlayView, p: PlayersView, card: Option<Card>, out: bool) -> (
    PlayView,
    PlayersView,
    Result<PlayOutcome, PlayError>,
) {
    let n = p.players.len() as int;
    if move_error(s, card) is Some {
        (s, p, Err(move_error(s, card)->Some_0))
    } else {
        let who = p.turn;
        let moved = PlayersView { turn: next_index(p.turn, n), ..p };
        let (next_state, scored) = match card {
            Some(c) => (
                PlayView {
                    history: s.history.push(c),
                    count: s.count + c.points(),
                    go_count: 0,
                    last: Some(who),
                },
                award(moved, who, play_points(s.history.push(c))),
            ),
            None => (PlayView { go_count: s.go_count + 1, ..s }, moved),
        };
        if next_state.go_count == n {
            let marked = match next_state.last {
                Some(l) => award(scored, l, 1),
                None => scored,
            };
            end_segment(marked)
        } else {
            let marked = if out {
                mark_out(scored, who)
            } else {
                scored
            };
            if out && all_out(marked) {
                let closing = match next_state.last {
                    Some(l) => if next_state.count < MAX_COUNT {
                        award(marked, l, 1)
                    } else {
                        marked
                    },
                    None => marked,
                };
                (next_state, closing, Ok(PlayOutcome::PhaseEnd))
            } else if next_state.count >= MAX_COUNT {
                end_segment(marked)
            } else {
                (next_state, marked, Ok(PlayOutcome::Continue))
            }
        }
    }
}

/// The cards of `hand` that can be played onto a running total of `count`
/// without passing 31, in the hand's order.
pub fn playable(hand: &Hand, count: u8) -> (r: Hand)
    requires
        all_wf(hand@.cards),
        count <= MAX_COUNT,
    ensures
        r@.cards == hand@.cards.filter(|c: Card| c.points() <= MAX_COUNT - count),
        r@.magic is None,
{
    let cards = hand.cards();
    let mut kept: Vec<Card> = Vec::new();
    let mut i: usize = 0;
    while i < cards.len()
        invariant
            i <= cards@.len(),
            cards@ == hand@.cards,
            all_wf(cards@),
            count <= MAX_COUNT,
            kept@ == cards@.take(i as int).filter(|c: Card| c.points() <= MAX_COUNT - count),
        decreases cards@.len() - i,
    {
        let c = cards[i];
        proof {
            assert(cards@.take(i + 1).drop_last() =~= cards@.take(i as int));
            assert(cards@[i as int].wf());
            reveal(Seq::filter);
        }
        if c.score_value() <= MAX_COUNT - count {
            kept.push(c);
        }
        i += 1;
    }
    proof {
        assert(cards@.take(cards@.len() as int) =~= cards@);
    }
    Hand::from(kept, None)
}

/// What the local player can do on their turn.
#[derive(Debug, PartialEq, Eq)]
pub enum OwnMove {
    /// The hand is empty: the player is out of cards.
    Out,
    /// No card fits under 31: the player says go.
    Go,
    /// The player chooses one of these cards.
    Choose(Hand),
}

/// Decides what the local player can do with `hand` on a running total of `count`.
pub fn own_move(hand: &Hand, count: u8) -> (r: OwnMove)
    requires
        all_wf(hand@.cards),
        count <= MAX_COUNT,
    ensures
        hand@.cards.len() == 0 ==> r matches OwnMove::Out,
        hand@.cards.len() > 0 && hand@.cards.filter(|c: Card| c.points() <= MAX_COUNT - count).len() == 0
            ==> r matches OwnMove::Go,
        hand@.cards.len() > 0 && hand@.cards.filter(|c: Card| c.points() <= MAX_COUNT - count).len() > 0
            ==> (r matches OwnMove::Choose(p) && p@.cards == hand@.cards.filter(
            |c: Card| c.points() <= MAX_COUNT - count,
        ) && p@.magic is None),
{
    if hand.len() == 0 {
        return OwnMove::Out;
    }
    let p = playable(hand, count);
    if p.len() == 0 {
        OwnMove::Go
    } else {
        OwnMove::Choose(p)
    }
}

/// Plays `card` from the local hand: every copy of it leaves the hand. Tells whether
/// the hand is now empty.
pub fn play_own_card(hand: &mut Hand, card: Card) -> (out: bool)
    ensures
        final(hand)@.cards == old(hand)@.cards.filter(|c: Card| c != card),
        final(hand)@.magic == old(hand)@.magic,
        out == (final(hand)@.cards.len() == 0),
{
    hand.remove_card(&card);
    hand.len() == 0
}

/// What the coordinator does with a turn of the play.
#[derive(Debug, PartialEq, Eq)]
pub enum CoordinatorAction {
    /// Send this move to every other participant.
    Forward(Frame),
    /// A participant ended its segment: the turn cursor was stepped back by two.
    Resync,
}

/// The coordinator's turn for player `who`, whose turn it was. A player already
/// out of cards makes no move of its own: `Play(None, true)` is sent for them and
/// `received` is not looked at. Otherwise `received` is what the player sent: a
/// move is forwarded, and marks them out when they say so; `RoundDone` steps the
/// turn cursor back by two; anything else is refused, changing nothing.
pub fn coordinator_turn(players: &mut Players, who: usize, received: Option<Frame>) -> (r: Result<
    CoordinatorAction,
    RoundError,
>)
    requires
        old(players).wf(),
        who < old(players)@.players.len(),
    ensures
        final(players).wf(),
        old(players)@.players[who as int].finished ==> (r matches Ok(CoordinatorAction::Forward(f))
            && f@ == FrameView::Play(None, true) && final(players)@ == old(players)@),
        !old(players)@.players[who as int].finished ==> match received {
            Some(Frame::Play(c, out)) => (r matches Ok(CoordinatorAction::Forward(f)) && f@
                == FrameView::Play(c, out) && final(players)@ == if out {
                mark_out(old(players)@, who as int)
            } else {
                old(players)@
            }),
            Some(Frame::RoundDone) => (r matches Ok(CoordinatorAction::Resync)) && final(players)@ == (
            PlayersView {
                turn: prev_index(
                    prev_index(old(players)@.turn, old(players)@.players.len() as int),
                    old(players)@.players.len() as int,
                ),
                ..old(players)@
            }),
            _ => r == Err::<CoordinatorAction, RoundError>(RoundError::UnexpectedFrame)
                && final(players)@ == old(players)@,
        },
{
    if players.player(who).finished {
        return Ok(CoordinatorAction::Forward(Frame::Play(None, true)));
    }
    match received {
        Some(Frame::Play(c, out)) => {
            if out {
                let ghost before = players@;
                players.mark_finished(who);
                proof {
                    assert(players@.players =~= mark_out(before, who as int).players);
                }
            }
            Ok(CoordinatorAction::Forward(Frame::Play(c, out)))
        },
        Some(Frame::RoundDone) => {
            players.resync();
            Ok(CoordinatorAction::Resync)
        },
        _ => Err(RoundError::UnexpectedFrame),
    }
}

/// How many cards at the end of `h` in a row have rank `v`.
fn trailing_matches(h: &Vec<Card>, v: char) -> (r: usize)
    ensures
        r == tail_matching(h@, v),
{
    let n = h.len();
    let mut k: usize = n;
    proof {
        assert(h@.take(n as int) =~= h@);
    }
    while k > 0 && h[k - 1].value == v
        invariant
            n == h@.len(),
            k <= n,
            tail_matching(h@, v) == (n - k) + tail_matching(h@.take(k as int), v),
        decreases k,
    {
        proof {
            assert(h@.take(k as int).drop_last() =~= h@.take(k - 1));
        }
        k -= 1;
    }
    proof {
        if k > 0 {
            assert(h@.take(k as int).last() == h@[k - 1]);
        }
    }
    n - k
}

impl PlayState {
    /// The state at the start of a play phase.
    pub fn new() -> (r: PlayState)
        ensures
            r@ == fresh_segment(),
    {
        PlayState { history: Vec::new(), count: 0, go_count: 0, last_player: None }
    }

    /// The running total of the segment.
    pub fn count(&self) -> (r: u8)
        ensures
            r == self@.count,
    {
        self.count
    }

    /// The cards played in the segment.
    pub fn history(&self) -> (r: &Vec<Card>)
        ensures
            r@ == self@.history,
    {
        &self.history
    }

    /// Why `card` may not be played now, if it may not.
    fn check_move(&self, card: Option<Card>) -> (r: Option<PlayError>)
        requires
            all_wf(self@.history),
            0 <= self@.count <= MAX_COUNT,
        ensures
            r == move_error(self@, card),
    {
        match card {
            Some(c) => {
                if !crate::card::is_rank_char(c.value) {
                    return Some(PlayError::BadCard);
                }
                if self.count + c.score_value() > MAX_COUNT {
                    return Some(PlayError::OverCount);
                }
                let m = trailing_matches(&self.history, c.value);
                proof {
                    let h2 = self@.history.push(c);
                    assert(h2.drop_last() =~= self@.history);
                }
                if m >= 4 {
                    return Some(PlayError::FifthOfARank);
                }
                None
            },
            None => None,
        }
    }

    fn end_segment(&mut self, players: &mut Players) -> (r: PlayOutcome)
        requires
            old(players).wf(),
        ensures
            final(players).wf(),
            (final(self)@, final(players)@, Ok::<PlayOutcome, PlayError>(r)) == end_segment(old(players)@),
    {
        let expected = players.peek_player();
        self.history.clear();
        self.count = 0;
        self.go_count = 0;
        self.last_player = None;
        players.decrement_player();
        proof {
            assert(self@.history =~= Seq::<Card>::empty());
            assert(final(players)@ =~= end_segment(old(players)@).1);
        }
        PlayOutcome::SegmentEnd(expected)
    }

    /// Plays one turn for the player whose turn it is; see `turn_step`.
    pub fn play_turn(&mut self, players: &mut Players, card: Option<Card>, out: bool) -> (r: Result<
        PlayOutcome,
        PlayError,
    >)
        requires
            old(players).wf(),
            play_wf(old(self)@, old(players)@.players.len() as int),
        ensures
            final(players).wf(),
            (final(self)@, final(players)@, r) == turn_step(old(self)@, old(players)@, card, out),
            r is Ok ==> play_wf(final(self)@, final(players)@.players.len() as int),
            final(players)@.players.len() == old(players)@.players.len(),
    {
        let ghost start = self@;
        let ghost players_before = players@;
        let n = players.len();
        if let Some(e) = self.check_move(card) {
            return Err(e);
        }
        let who = players.next_player();
        let ghost moved = players@;
        match card {
            Some(c) => {
                self.history.push(c);
                self.count = self.count + c.score_value();
                let score = score_play(&self.history);
                players.add_play_score(who, score);
                self.go_count = 0;
                self.last_player = Some(who);
                proof {
                    let h2 = start.history.push(c);
                    assert(h2.drop_last() =~= start.history);
                    assert(h2.last() == c);
                    assert(all_wf(h2)) by {
                        assert forall|i: int| 0 <= i < h2.len() implies (#[trigger] h2[i]).wf() by {
                            if i < start.history.len() {
                                assert(h2[i] == start.history[i]);
                            }
                        }
                    }
                    assert(players@.players =~= award(moved, who as int, play_points(start.history.push(c))).players);
                    assert(players@ == award(moved, who as int, play_points(start.history.push(c))));
                }
            },
            None => {
                self.go_count = self.go_count + 1;
            },
        }
        let ghost next_state = self@;
        let ghost scored = players@;
        if self.go_count == n {
            if let Some(l) = self.last_player {
                players.add_play_score(l, 1);
                proof {
                    assert(players@.players =~= award(scored, l as int, 1).players);
                    assert(players@ == award(scored, l as int, 1));
                }
            }
            return Ok(self.end_segment(players));
        }
        if out {
            players.mark_finished(who);
            proof {
                assert(players@.players =~= mark_out(scored, who as int).players);
                    assert(players@ == mark_out(scored, who as int));
            }
            if players.players_finished() {
                let ghost marked = players@;
                if self.count < MAX_COUNT {
                    if let Some(l) = self.last_player {
                        players.add_play_score(l, 1);
                        proof {
                            assert(players@.players =~= award(marked, l as int, 1).players);
                    assert(players@ == award(marked, l as int, 1));
                        }
                    }
                }
                return Ok(PlayOutcome::PhaseEnd);
            }
        }
        if self.count >= MAX_COUNT {
            return Ok(self.end_segment(players));
        }
        Ok(PlayOutcome::Continue)
    }
}

/// `k` turns in a row in which no card is played and no one runs out of cards.
pub open spec fn passes(s: PlayView, p: PlayersView, k: nat) -> (
    PlayView,
    PlayersView,
    Result<PlayOutcome, PlayError>,
)
    decreases k,
{
    if k == 0 {
        (s, p, Ok(PlayOutcome::Continue))
    } else {
        let (prior, moved, _r) = passes(s, p, (k - 1) as nat);
        turn_step(prior, moved, None, false)
    }
}

proof fn lemma_passes_before_last(s: PlayView, p: PlayersView, k: nat)
    requires
        p.players.len() > 0,
        play_wf(s, p.players.len() as int),
        s.go_count == 0,
        s.count < MAX_COUNT,
        k < p.players.len(),
    ensures
        passes(s, p, k).0 == (PlayView { go_count: k as int, ..s }),
        passes(s, p, k).1.players == p.players,
        passes(s, p, k).2 == Ok::<PlayOutcome, PlayError>(PlayOutcome::Continue),
    decreases k,
{
    if k > 0 {
        lemma_passes_before_last(s, p, (k - 1) as nat);
    }
}

/// Go accounting. After a card from player `l`, with the count below 31, let each
/// of the `n` players in turn pass without running out: the first `n - 1` passes
/// are counted one by one and the segment goes on; the `n`-th ends the segment,
/// gives `l` one point for the go, changes no other player, and starts a fresh
/// count.
pub proof fn lemma_go_point(s: PlayView, p: PlayersView, l: int)
    requires
        p.players.len() > 0,
        play_wf(s, p.players.len() as int),
        s.go_count == 0,
        s.last == Some(l),
        s.count < MAX_COUNT,
    ensures
        forall|k: nat|
            0 < k < p.players.len() ==> (#[trigger] passes(s, p, k)).2 == Ok::<PlayOutcome, PlayError>(
                PlayOutcome::Continue,
            ) && passes(s, p, k).0.go_count == k,
        passes(s, p, p.players.len() as nat).2 matches Ok(PlayOutcome::SegmentEnd(_)),
        passes(s, p, p.players.len() as nat).0 == fresh_segment(),
        passes(s, p, p.players.len() as nat).1.players == award(p, l, 1).players,
{
    let n = p.players.len() as nat;
    assert forall|k: nat| 0 < k < p.players.len() implies (#[trigger] passes(s, p, k)).2 == Ok::<
        PlayOutcome,
        PlayError,
    >(PlayOutcome::Continue) && passes(s, p, k).0.go_count == k by {
        lemma_passes_before_last(s, p, k);
    }
    lemma_passes_before_last(s, p, (n - 1) as nat);
    let (prior, moved, _r) = passes(s, p, (n - 1) as nat);
    assert(award(moved, l, 1).players == award(p, l, 1).players);
}

} // verus!
