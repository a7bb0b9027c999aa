use cribbage::hand::Hand;
use cribbage::is_run;
use cribbage::score_play;
use cribbage::{Card, Suit};

fn card(value: char, suit: Suit) -> Card {
    Card { value, suit }
}

#[test]
fn score_value_and_order() {
    assert_eq!(card('A', Suit::Spades).score_value(), 1);
    assert_eq!(card('9', Suit::Hearts).score_value(), 9);
    assert_eq!(card('T', Suit::Clubs).score_value(), 10);
    assert_eq!(card('K', Suit::Clubs).score_value(), 10);
    assert_eq!(card('J', Suit::Diamonds).order(), 11);
    assert_eq!(card('Q', Suit::Diamonds).order(), 12);
    assert_eq!(card('K', Suit::Diamonds).order(), 13);
    assert_eq!(card('T', Suit::Diamonds).order(), 10);
}

#[test]
fn net_names() {
    assert_eq!(card('T', Suit::Hearts).to_net_name(), "TH");
    assert_eq!(card('A', Suit::Spades).to_net_name(), "AS");
    assert_eq!(Card::from_net_name(String::from("QD")), card('Q', Suit::Diamonds));
    assert_eq!(Card::from_net_name(String::from("7Cxyz")), card('7', Suit::Clubs));
}

#[test]
fn play_three_of_a_kind_making_fifteen() {
    let history = vec![
        card('5', Suit::Spades),
        card('5', Suit::Hearts),
        card('5', Suit::Diamonds),
    ];
    assert_eq!(score_play(&history), 8);
}

#[test]
fn play_run_of_three_making_fifteen() {
    let history = vec![
        card('4', Suit::Spades),
        card('5', Suit::Hearts),
        card('6', Suit::Diamonds),
    ];
    assert_eq!(score_play(&history), 5);
}

#[test]
fn play_scores_each_check_separately() {
    assert_eq!(score_play(&vec![]), 0);
    assert_eq!(score_play(&vec![card('9', Suit::Spades)]), 0);
    // a pair
    assert_eq!(score_play(&vec![card('9', Suit::Spades), card('9', Suit::Clubs)]), 2);
    // four of a kind: 12, total 16
    let fours = vec![
        card('4', Suit::Spades),
        card('4', Suit::Hearts),
        card('4', Suit::Diamonds),
        card('4', Suit::Clubs),
    ];
    assert_eq!(score_play(&fours), 12);
    // thirty-one
    let to_31 = vec![
        card('K', Suit::Spades),
        card('Q', Suit::Hearts),
        card('J', Suit::Diamonds),
        card('A', Suit::Clubs),
    ];
    assert_eq!(score_play(&to_31), 2);
    // the run only counts at the end: 3,5,4 is a run of three, 2 before it makes four
    let run = vec![
        card('2', Suit::Spades),
        card('3', Suit::Hearts),
        card('5', Suit::Diamonds),
        card('4', Suit::Clubs),
    ];
    assert_eq!(score_play(&run), 4);
    // a run broken at the end scores nothing
    let broken = vec![card('2', Suit::Spades), card('3', Suit::Hearts), card('9', Suit::Diamonds)];
    assert_eq!(score_play(&broken), 0);
    // the longest run at the end wins: K then A,2,3 gives 3, not 4
    let longest = vec![
        card('K', Suit::Spades),
        card('A', Suit::Hearts),
        card('3', Suit::Diamonds),
        card('2', Suit::Clubs),
    ];
    assert_eq!(score_play(&longest), 3);
}

#[test]
fn runs_in_sorted_order() {
    let a = card('4', Suit::Spades);
    let b = card('5', Suit::Hearts);
    let c = card('6', Suit::Diamonds);
    let d = card('8', Suit::Diamonds);
    assert!(is_run(&[&a, &b, &c]));
    assert!(!is_run(&[&a, &b]));
    assert!(!is_run(&[&a, &c, &b]));
    assert!(!is_run(&[&a, &b, &d]));
}

#[test]
fn show_seven_eight_with_ace() {
    let hand = Hand::from(vec![card('7', Suit::Spades), card('8', Suit::Hearts)], Some(card('A', Suit::Diamonds)));
    // 7 + 8 is fifteen; nothing else scores
    assert_eq!(hand.score(), 2);
    let none = Hand::from(vec![card('7', Suit::Spades), card('9', Suit::Hearts)], Some(card('A', Suit::Diamonds)));
    assert_eq!(none.score(), 0);
}

#[test]
fn show_four_fives_and_nobs() {
    let hand = Hand::from(
        vec![
            card('5', Suit::Spades),
            card('5', Suit::Hearts),
            card('5', Suit::Diamonds),
            card('J', Suit::Clubs),
        ],
        Some(card('5', Suit::Clubs)),
    );
    // six pairs of fives: 12; four fifteens of three fives and four of five and jack: 16; nobs: 1
    assert_eq!(hand.score(), 29);
}

#[test]
fn show_counts_every_run() {
    let hand = Hand::from(
        vec![
            card('3', Suit::Spades),
            card('4', Suit::Hearts),
            card('5', Suit::Diamonds),
            card('K', Suit::Clubs),
        ],
        Some(card('9', Suit::Clubs)),
    );
    // the run 3-4-5: 3; the only fifteen is 5 and K: 2
    assert_eq!(hand.score(), 5);
    let four_run = Hand::from(
        vec![
            card('3', Suit::Spades),
            card('4', Suit::Hearts),
            card('5', Suit::Diamonds),
            card('6', Suit::Clubs),
        ],
        Some(card('K', Suit::Hearts)),
    );
    // runs: the four-card run (4) and its two three-card runs (3 + 3); fifteens: 4+5+6, 5+K: 4
    assert_eq!(four_run.score(), 14);
}

#[test]
fn show_needs_magic() {
    let hand = Hand::from(vec![card('7', Suit::Spades)], None);
    assert!(!hand.is_scoreable());
    let ok = Hand::from(vec![card('7', Suit::Spades)], Some(card('8', Suit::Spades)));
    assert!(ok.is_scoreable());
    let bad = Hand::from(vec![card('Z', Suit::Spades)], Some(card('8', Suit::Spades)));
    assert!(!bad.is_scoreable());
}
