use cribbage::hand::Hand;
use cribbage::round::{check_discard, discard_size, hand_size, heels_points, receive_magic, take_discard};
use cribbage::show::score_show;
use cribbage::turn::{coordinator_turn, own_move, play_own_card, playable, CoordinatorAction, OwnMove};
use cribbage::Frame;
use cribbage::{Card, Deck, PlayError, PlayOutcome, PlayState, Players, RoundError, Suit};

fn card(value: char, suit: Suit) -> Card {
    Card { value, suit }
}

fn names(list: &[&str]) -> Vec<String> {
    list.iter().map(|s| s.to_string()).collect()
}

#[test]
fn new_deck_order() {
    let mut deck = Deck::new();
    assert_eq!(deck.len(), 52);
    let all = deck.deal(52);
    let cards = all.cards();
    assert_eq!(cards[0], card('A', Suit::Spades));
    assert_eq!(cards[12], card('K', Suit::Spades));
    assert_eq!(cards[13], card('A', Suit::Hearts));
    assert_eq!(cards[51], card('K', Suit::Clubs));
    for i in 0..52 {
        for j in 0..i {
            assert_ne!(cards[i], cards[j]);
        }
    }
}

#[test]
fn deal_then_rejoin_restores_deck() {
    for n in [0usize, 1, 6, 12, 52] {
        let mut deck = Deck::new();
        let hand = deck.deal(n);
        assert_eq!(hand.len(), n);
        assert_eq!(deck.len(), 52 - n);
        deck.rejoin(hand);
        assert_eq!(deck.len(), 52);
        let mut fresh = Deck::new();
        assert_eq!(deck.deal(52).cards(), fresh.deal(52).cards());
    }
}

#[test]
fn deal_takes_from_the_end_and_magic_is_last() {
    let mut deck = Deck::new();
    let hand = deck.deal(2);
    assert_eq!(hand.cards(), &[card('Q', Suit::Clubs), card('K', Suit::Clubs)]);
    assert!(hand.magic().is_none());
    assert_eq!(*deck.draw_magic(), card('J', Suit::Clubs));
    assert_eq!(deck.len(), 50);
}

#[test]
fn shuffle_keeps_the_cards() {
    let mut deck = Deck::new();
    deck.shuffle();
    assert_eq!(deck.len(), 52);
    let mut shuffled: Vec<String> = deck.deal(52).cards().iter().map(|c| c.to_net_name()).collect();
    let mut fresh: Vec<String> = Deck::new().deal(52).cards().iter().map(|c| c.to_net_name()).collect();
    shuffled.sort();
    fresh.sort();
    assert_eq!(shuffled, fresh);
}

#[test]
fn hand_operations() {
    let mut hand = Hand::new();
    assert_eq!(hand.len(), 0);
    hand.push(card('2', Suit::Spades));
    hand.push(card('3', Suit::Hearts));
    hand.push(card('2', Suit::Spades));
    hand.push(card('4', Suit::Clubs));
    assert_eq!(hand.remove(1), card('3', Suit::Hearts));
    assert_eq!(hand.cards(), &[card('2', Suit::Spades), card('2', Suit::Spades), card('4', Suit::Clubs)]);
    hand.remove_card(&card('2', Suit::Spades));
    assert_eq!(hand.cards(), &[card('4', Suit::Clubs)]);
    let mut other = Hand::from(vec![card('9', Suit::Hearts), card('T', Suit::Hearts)], None);
    hand.combine(&mut other);
    assert_eq!(other.len(), 0);
    assert_eq!(hand.cards(), &[card('4', Suit::Clubs), card('9', Suit::Hearts), card('T', Suit::Hearts)]);
    hand.set_magic(card('5', Suit::Diamonds));
    assert_eq!(hand.magic(), Some(&card('5', Suit::Diamonds)));
}

#[test]
fn playable_cards_fit_under_thirty_one() {
    let hand = Hand::from(
        vec![card('K', Suit::Spades), card('A', Suit::Hearts), card('6', Suit::Clubs)],
        Some(card('2', Suit::Clubs)),
    );
    let p = playable(&hand, 25);
    assert_eq!(p.cards(), &[card('A', Suit::Hearts), card('6', Suit::Clubs)]);
    assert!(p.magic().is_none());
    assert_eq!(playable(&hand, 31).len(), 0);
    assert_eq!(playable(&hand, 0).len(), 3);
}

#[test]
fn round_sizes() {
    assert_eq!(hand_size(2), Ok(6));
    assert_eq!(hand_size(3), Ok(5));
    assert_eq!(hand_size(4), Err(RoundError::PlayerCount));
    assert_eq!(hand_size(1), Err(RoundError::PlayerCount));
    assert_eq!(discard_size(2), Ok(2));
    assert_eq!(discard_size(3), Ok(1));
    assert_eq!(discard_size(5), Err(RoundError::PlayerCount));
    assert_eq!(check_discard(2, 2), Ok(()));
    assert_eq!(check_discard(2, 1), Err(RoundError::DiscardCount));
    assert_eq!(check_discard(3, 1), Ok(()));
    assert_eq!(check_discard(4, 0), Err(RoundError::PlayerCount));
    assert_eq!(heels_points(&card('J', Suit::Hearts)), 2);
    assert_eq!(heels_points(&card('Q', Suit::Hearts)), 0);
}

#[test]
fn dealer_and_turn_rotation() {
    let mut players = Players::from(names(&["a", "b", "c"]));
    assert_eq!(players.len(), 3);
    assert_eq!(players.next_dealer(), 0);
    assert_eq!(players.current_dealer(), 0);
    players.start_play();
    assert_eq!(players.peek_player(), 1);
    // a full cycle of next_player returns to the dealer's successor
    assert_eq!(players.next_player(), 1);
    assert_eq!(players.next_player(), 2);
    assert_eq!(players.next_player(), 0);
    assert_eq!(players.peek_player(), 1);
    players.decrement_player();
    assert_eq!(players.peek_player(), 0);
    players.resync();
    assert_eq!(players.peek_player(), 1);
    assert_eq!(players.next_dealer(), 1);
    assert_eq!(players.next_dealer(), 2);
    assert_eq!(players.current_dealer(), 2);
    assert_eq!(players.next_dealer(), 0);
}

#[test]
fn scores_stop_at_121() {
    let mut players = Players::from(names(&["a", "b"]));
    for _ in 0..10 {
        players.add_play_score(0, 13);
    }
    assert_eq!(players.player(0).score, 121);
    assert_eq!(players.player(0).play_score, 130);
    players.add_show_score(1, 29);
    assert_eq!(players.player(1).score, 29);
    assert_eq!(players.max_score(), 121);
    assert_eq!(players.player_with_max_score(), 0);
    players.reset_round();
    assert_eq!(players.player(0).play_score, 0);
    assert_eq!(players.player(0).score, 121);
    assert!(!players.players_finished());
    players.mark_finished(0);
    players.mark_finished(1);
    assert!(players.players_finished());
}

#[test]
fn tie_goes_to_the_later_player() {
    let mut players = Players::from(names(&["a", "b", "c"]));
    players.add_show_score(0, 10);
    players.add_show_score(2, 10);
    assert_eq!(players.player_with_max_score(), 2);
}

#[test]
fn go_point_goes_to_last_card() {
    let mut players = Players::from(names(&["a", "b"]));
    players.next_dealer();
    players.start_play();
    let mut state = PlayState::new();
    // b leads a seven
    assert_eq!(state.play_turn(&mut players, Some(card('7', Suit::Hearts)), false), Ok(PlayOutcome::Continue));
    // a passes, then b passes: the second pass ends the segment, b scores the go
    assert_eq!(state.play_turn(&mut players, None, false), Ok(PlayOutcome::Continue));
    assert_eq!(players.player(0).score, 0);
    assert_eq!(state.play_turn(&mut players, None, false), Ok(PlayOutcome::SegmentEnd(0)));
    assert_eq!(players.player(1).score, 1);
    assert_eq!(players.player(0).score, 0);
    assert_eq!(state.count(), 0);
    assert_eq!(state.history().len(), 0);
    // the turn cursor stepped back: b's turn
    assert_eq!(players.peek_player(), 1);
}

#[test]
fn bad_moves_are_refused() {
    let mut players = Players::from(names(&["a", "b"]));
    players.next_dealer();
    players.start_play();
    let mut state = PlayState::new();
    assert_eq!(state.play_turn(&mut players, Some(card('Z', Suit::Hearts)), false), Err(PlayError::BadCard));
    for v in ['K', 'Q', 'J'] {
        assert_eq!(state.play_turn(&mut players, Some(card(v, Suit::Hearts)), false), Ok(PlayOutcome::Continue));
    }
    assert_eq!(state.count(), 30);
    assert_eq!(state.play_turn(&mut players, Some(card('2', Suit::Hearts)), false), Err(PlayError::OverCount));
    // the refused move changed nothing
    assert_eq!(state.count(), 30);
    // an ace makes 31: 2 points, and the segment ends
    let who = players.peek_player();
    let expected = (who + 1) % 2;
    assert_eq!(state.play_turn(&mut players, Some(card('A', Suit::Hearts)), false), Ok(PlayOutcome::SegmentEnd(expected)));
    assert_eq!(players.player(who).score, 2);
}

#[test]
fn fifth_of_a_rank_is_refused() {
    let mut players = Players::from(names(&["a", "b"]));
    players.next_dealer();
    players.start_play();
    let mut state = PlayState::new();
    for s in [Suit::Spades, Suit::Hearts, Suit::Diamonds, Suit::Clubs] {
        assert!(state.play_turn(&mut players, Some(card('A', s)), false).is_ok());
    }
    assert_eq!(state.play_turn(&mut players, Some(card('A', Suit::Spades)), false), Err(PlayError::FifthOfARank));
}

#[test]
fn last_card_scores_when_all_are_out() {
    let mut players = Players::from(names(&["a", "b"]));
    players.next_dealer();
    players.start_play();
    let mut state = PlayState::new();
    // b plays its last card, a plays its last card: both out, a scores 1 for last
    assert_eq!(state.play_turn(&mut players, Some(card('3', Suit::Hearts)), true), Ok(PlayOutcome::Continue));
    assert_eq!(state.play_turn(&mut players, Some(card('9', Suit::Hearts)), true), Ok(PlayOutcome::PhaseEnd));
    assert_eq!(players.player(0).score, 1);
    assert_eq!(players.player(1).score, 0);
}

#[test]
fn two_player_round() {
    let mut deck = Deck::new();
    let mut players = Players::from(names(&["dealer", "pone"]));
    let dealer = players.next_dealer();
    assert_eq!(dealer, 0);
    let size = hand_size(2).unwrap();
    let mut dealer_hand = deck.deal(size);
    let mut pone_hand = deck.deal(size);
    // dealer holds 8..K of clubs, pone holds 2..7 of clubs
    assert_eq!(dealer_hand.cards()[0], card('8', Suit::Clubs));
    assert_eq!(pone_hand.cards()[0], card('2', Suit::Clubs));
    let mut crib = Hand::new();
    let mut d_discard = Hand::new();
    d_discard.push(dealer_hand.remove(5));
    d_discard.push(dealer_hand.remove(4));
    let mut p_discard = Hand::new();
    p_discard.push(pone_hand.remove(5));
    p_discard.push(pone_hand.remove(4));
    assert_eq!(check_discard(2, d_discard.len()), Ok(()));
    assert_eq!(check_discard(2, p_discard.len()), Ok(()));
    crib.combine(&mut d_discard);
    crib.combine(&mut p_discard);
    assert_eq!(crib.len(), 4);
    let magic = *deck.draw_magic();
    assert_eq!(magic, card('A', Suit::Clubs));
    assert_eq!(heels_points(&magic), 0);

    players.start_play();
    let mut state = PlayState::new();
    assert_eq!(players.peek_player(), 1);
    let plays = [
        card('2', Suit::Clubs),
        card('8', Suit::Clubs),
        card('5', Suit::Clubs),
        card('9', Suit::Clubs),
    ];
    let mut scores = Vec::new();
    for c in plays.iter() {
        let who = players.peek_player();
        let before = players.player(who).score;
        assert_eq!(state.play_turn(&mut players, Some(*c), false), Ok(PlayOutcome::Continue));
        scores.push(players.player(who).score - before);
    }
    // the third play makes fifteen: 2, with no run or pair in 2, 8, 5
    assert_eq!(state.count(), 24);
    assert_eq!(scores, vec![0, 0, 2, 0]);
    assert_eq!(players.player(1).score, 2);
    assert_eq!(players.player(0).score, 0);

    dealer_hand.set_magic(magic);
    pone_hand.set_magic(magic);
    crib.set_magic(magic);
    assert!(pone_hand.is_scoreable() && dealer_hand.is_scoreable() && crib.is_scoreable());
    deck.rejoin(dealer_hand);
    deck.rejoin(pone_hand);
    deck.rejoin(crib);
    assert_eq!(deck.len(), 52);
}

#[test]
fn discard_by_positions() {
    let mut hand = Hand::from(
        vec![
            card('A', Suit::Spades),
            card('2', Suit::Spades),
            card('3', Suit::Spades),
            card('4', Suit::Spades),
        ],
        Some(card('K', Suit::Hearts)),
    );
    let discard = take_discard(&mut hand, &vec![1, 3]).unwrap();
    assert_eq!(discard.cards(), &[card('2', Suit::Spades), card('4', Suit::Spades)]);
    assert!(discard.magic().is_none());
    assert_eq!(hand.cards(), &[card('A', Suit::Spades), card('3', Suit::Spades)]);
    assert_eq!(hand.magic(), Some(&card('K', Suit::Hearts)));
    // positions in any order; the discard keeps the order asked for
    let discard = take_discard(&mut hand, &vec![1, 0]).unwrap();
    assert_eq!(discard.cards(), &[card('3', Suit::Spades), card('A', Suit::Spades)]);
    assert_eq!(hand.len(), 0);
}

#[test]
fn bad_discard_positions_change_nothing() {
    let mut hand = Hand::from(vec![card('A', Suit::Spades), card('2', Suit::Spades)], None);
    assert_eq!(take_discard(&mut hand, &vec![0, 0]), Err(RoundError::BadIndex));
    assert_eq!(take_discard(&mut hand, &vec![2]), Err(RoundError::BadIndex));
    assert_eq!(hand.len(), 2);
}

#[test]
fn magic_jack_scores_for_the_dealer() {
    let mut players = Players::from(names(&["a", "b"]));
    let dealer = players.next_dealer();
    let mut hand = Hand::from(vec![card('5', Suit::Spades)], None);
    receive_magic(&mut players, &mut hand, card('J', Suit::Hearts));
    assert_eq!(hand.magic(), Some(&card('J', Suit::Hearts)));
    assert_eq!(players.player(dealer).score, 2);
    assert_eq!(players.player(dealer).play_score, 2);
    assert_eq!(players.player(1 - dealer).score, 0);
    let mut other = Hand::new();
    receive_magic(&mut players, &mut other, card('Q', Suit::Hearts));
    assert_eq!(players.player(dealer).score, 2);
}

#[test]
fn local_move_choices() {
    assert_eq!(own_move(&Hand::new(), 10), OwnMove::Out);
    let mut hand = Hand::from(vec![card('K', Suit::Spades), card('3', Suit::Hearts)], None);
    assert_eq!(own_move(&hand, 29), OwnMove::Go);
    assert_eq!(own_move(&hand, 25), OwnMove::Choose(Hand::from(vec![card('3', Suit::Hearts)], None)));
    assert!(!play_own_card(&mut hand, card('3', Suit::Hearts)));
    assert_eq!(hand.cards(), &[card('K', Suit::Spades)]);
    assert!(play_own_card(&mut hand, card('K', Suit::Spades)));
}

#[test]
fn show_scores_every_hand_and_the_crib() {
    let mut players = Players::from(names(&["a", "b"]));
    let dealer = players.next_dealer();
    let magic = card('5', Suit::Clubs);
    let crib = Hand::from(vec![card('T', Suit::Hearts), card('2', Suit::Hearts)], Some(magic));
    // nothing happens while a hand is missing
    assert_eq!(score_show(&mut players, &crib), Err(RoundError::Unscoreable));
    players.set_hand(0, Hand::from(vec![card('5', Suit::Spades), card('5', Suit::Hearts)], Some(magic)));
    players.set_hand(1, Hand::from(vec![card('7', Suit::Spades), card('8', Suit::Hearts)], Some(magic)));
    let bad_crib = Hand::from(vec![card('T', Suit::Hearts)], None);
    assert_eq!(score_show(&mut players, &bad_crib), Err(RoundError::Unscoreable));
    assert_eq!(players.player(0).score, 0);
    assert_eq!(score_show(&mut players, &crib), Ok(()));
    // a: three pairs of fives and their fifteen: 8; b: 7 + 8: 2;
    // the crib (T, 2, 5): 10 + 5: 2, to the dealer
    assert_eq!(dealer, 0);
    assert_eq!(players.player(0).score, 10);
    assert_eq!(players.player(0).show_score, 10);
    assert_eq!(players.player(1).score, 2);
}

#[test]
fn coordinator_turns() {
    let mut players = Players::from(names(&["a", "b", "c"]));
    players.next_dealer();
    players.start_play();
    let who = players.next_player();
    assert_eq!(who, 1);
    let action = coordinator_turn(&mut players, who, Some(Frame::Play(Some(card('4', Suit::Clubs)), true)));
    assert_eq!(action, Ok(CoordinatorAction::Forward(Frame::Play(Some(card('4', Suit::Clubs)), true))));
    assert!(players.player(1).finished);
    // a finished player's move is made for them
    assert_eq!(
        coordinator_turn(&mut players, 1, None),
        Ok(CoordinatorAction::Forward(Frame::Play(None, true)))
    );
    let who = players.next_player();
    assert_eq!(coordinator_turn(&mut players, who, Some(Frame::RoundDone)), Ok(CoordinatorAction::Resync));
    assert_eq!(players.peek_player(), 1);
    assert_eq!(
        coordinator_turn(&mut players, 0, Some(Frame::Seed(String::from("x")))),
        Err(RoundError::UnexpectedFrame)
    );
    assert_eq!(coordinator_turn(&mut players, 0, None), Err(RoundError::UnexpectedFrame));
}
