use vstd::prelude::*;
use crate::card::Card;
use crate::hand::Hand;
use crate::players::{prev_index, Players};
use crate::turn::award;

verus! {

/// Why a game cannot be set up or a round cannot go on.
#[derive(Clone, Copy, Debug, PartialEq, Eq, Structural)]
pub enum RoundError {
    /// The game is for two or three players.
    PlayerCount,
    /// A discard holds the wrong number of cards.
    DiscardCount,
    /// A discard names a position twice, or one past the end of the hand.
    BadIndex,
    /// A hand to be shown has no magic card, too many cards, or a card of no rank.
    Unscoreable,
    /// A frame of the wrong kind came in.
    UnexpectedFrame,
}

/// How many cards each player is dealt: 6 for two players, 5 for three.
pub fn hand_size(players: usize) -> (r: Result<usize, RoundError>)
    ensures
        players == 2 ==> r == Ok::<usize, RoundError>(6),
        players == 3 ==> r == Ok::<usize, RoundError>(5),
        players != 2 && players != 3 ==> r == Err::<usize, RoundError>(RoundError::PlayerCount),
{
    if players == 2 || players == 3 {
        Ok(8 - players)
    } else {
        Err(RoundError::PlayerCount)
    }
}

/// How many cards each player gives to the crib: 2 for two players, 1 for three.
pub fn discard_size(players: usize) -> (r: Result<usize, RoundError>)
    ensures
        players == 2 ==> r == Ok::<usize, RoundError>(2),
        players == 3 ==> r == Ok::<usize, RoundError>(1),
        players != 2 && players != 3 ==> r == Err::<usize, RoundError>(RoundError::PlayerCount),
{
    if players == 2 || players == 3 {
        Ok(4 - players)
    } else {
        Err(RoundError::PlayerCount)
    }
}

/// Accepts a discard of `len` cards only if it is the size the player count asks for.
pub fn check_discard(players: usize, len: usize) -> (r: Result<(), RoundError>)
    ensures
        players != 2 && players != 3 ==> r == Err::<(), RoundError>(RoundError::PlayerCount),
        players == 2 || players == 3 ==> (r is Ok <==> len == 4 - players),
        players == 2 || players == 3 ==> (r is Err ==> r == Err::<(), RoundError>(RoundError::DiscardCount)),
{
    let want = discard_size(players)?;
    if len == want {
        Ok(())
    } else {
        Err(RoundError::DiscardCount)
    }
}

/// The dealer's points for the magic card: 2 when it is a jack ("his heels").
pub fn heels_points(magic: &Card) -> (r: u8)
    ensures
        r == if magic.value == 'J' {
            2int
        } else {
            0
        },
{
    if magic.value == 'J' {
        2
    } else {
        0
    }
}

/// The cards of `s` whose positions are not listed in `idx`, in order.
pub open spec fn without_positions(s: Seq<Card>, idx: Seq<usize>) -> Seq<Card>
    decreases s.len(),
{
    if s.len() == 0 {
        s
    } else if idx.contains((s.len() - 1) as usize) {
        without_positions(s.drop_last(), idx)
    } else {
        without_positions(s.drop_last(), idx).push(s.last())
    }
}

/// Every listed position is a position of a hand of `len` cards, and none is listed twice.
pub open spec fn valid_positions(idx: Seq<usize>, len: nat) -> bool {
    idx.no_duplicates() && forall|k: int| 0 <= k < idx.len() ==> idx[k] < len
}

fn listed(indices: &Vec<usize>, j: usize) -> (r: bool)
    ensures
        r == indices@.contains(j),
{
    let mut k: usize = 0;
    while k < indices.len()
        invariant
            k <= indices@.len(),
            forall|t: int| 0 <= t < k ==> indices@[t] != j,
        decreases indices@.len() - k,
    {
        if indices[k] == j {
            return true;
        }
        k += 1;
    }
    false
}

/// Takes the cards at the listed positions out of the hand as a discard, in the
/// order listed; the rest stay in order. Refused, leaving the hand as it was, when
/// a position is listed twice or lies past the end of the hand.
pub fn take_discard(hand: &mut Hand, indices: &Vec<usize>) -> (r: Result<Hand, RoundError>)
    ensures
        r is Ok <==> valid_positions(indices@, old(hand)@.cards.len()),
        r is Err ==> r == Err::<Hand, RoundError>(RoundError::BadIndex) && final(hand)@ == old(hand)@,
        r matches Ok(d) ==> d@.cards == indices@.map_values(|i: usize| old(hand)@.cards[i as int])
            && d@.magic is None && final(hand)@.cards == without_positions(old(hand)@.cards, indices@)
            && final(hand)@.magic == old(hand)@.magic,
{
    let ghost cards0 = hand@.cards;
    let n = hand.len();
    let mut k: usize = 0;
    while k < indices.len()
        invariant
            k <= indices@.len(),
            n == cards0.len(),
            hand@.cards == cards0,
            forall|a: int| 0 <= a < k ==> indices@[a] < n,
            forall|a: int, b: int| 0 <= a < k && 0 <= b < indices@.len() && a != b ==> indices@[a] != indices@[b],
        decreases indices@.len() - k,
    {
        if indices[k] >= n {
            return Err(RoundError::BadIndex);
        }
        let mut t: usize = 0;
        while t < indices.len()
            invariant
                k < indices@.len(),
                t <= indices@.len(),
                forall|b: int| 0 <= b < t && b != k ==> indices@[k as int] != indices@[b],
            decreases indices@.len() - t,
        {
            if t != k && indices[t] == indices[k] {
                return Err(RoundError::BadIndex);
            }
            t += 1;
        }
        k += 1;
    }
    let cards = hand.cards();
    let mut discard: Vec<Card> = Vec::new();
    let mut k: usize = 0;
    while k < indices.len()
        invariant
            k <= indices@.len(),
            cards@ == cards0,
            n == cards0.len(),
            forall|a: int| 0 <= a < indices@.len() ==> indices@[a] < n,
            discard@ == indices@.take(k as int).map_values(|i: usize| cards0[i as int]),
        decreases indices@.len() - k,
    {
        discard.push(cards[indices[k]]);
        k += 1;
        proof {
            assert(discard@ =~= indices@.take(k as int).map_values(|i: usize| cards0[i as int]));
        }
    }
    proof {
        assert(indices@.take(indices@.len() as int) =~= indices@);
    }
    let mut kept: Vec<Card> = Vec::new();
    let mut j: usize = 0;
    while j < n
        invariant
            j <= n,
            cards@ == cards0,
            n == cards0.len(),
            kept@ == without_positions(cards0.take(j as int), indices@),
        decreases n - j,
    {
        proof {
            assert(cards0.take(j + 1).drop_last() =~= cards0.take(j as int));
        }
        if !listed(indices, j) {
            kept.push(cards[j]);
        }
        j += 1;
    }
    proof {
        assert(cards0.take(n as int) =~= cards0);
    }
    let magic = match hand.magic() {
        Some(m) => Some(*m),
        None => None,
    };
    *hand = Hand::from(kept, magic);
    Ok(Hand::from(discard, None))
}

/// Receives the magic card: it is set on the hand, and when it is a jack this
/// round's dealer scores 2 play points ("his heels").
pub fn receive_magic(players: &mut Players, hand: &mut Hand, magic: Card)
    requires
        old(players).wf(),
    ensures
        final(players).wf(),
        final(hand)@.cards == old(hand)@.cards,
        final(hand)@.magic == Some(magic),
        final(players)@ == if magic.value == 'J' {
            award(old(players)@, prev_index(old(players)@.dealer, old(players)@.players.len() as int), 2)
        } else {
            old(players)@
        },
{
    let heels = heels_points(&magic);
    if heels > 0 {
        let dealer = players.current_dealer();
        let ghost before = players@;
        players.add_play_score(dealer, heels);
        proof {
            assert(players@.players =~= award(before, dealer as int, 2).players);
        }
    }
    hand.set_magic(magic);
}

} // verus!
