use vstd::prelude::*;
use itertools::Itertools;
use rand::seq::SliceRandom;
use crate::card::{Card, Suit};
use crate::hand::Hand;

verus! {

/// The rank symbol at position `i` of `A23456789TJQK`.
pub open spec fn rank_at(i: int) -> char {
    seq!['A', '2', '3', '4', '5', '6', '7', '8', '9', 'T', 'J', 'Q', 'K'][i]
}

/// The suit at position `i` of spades, hearts, diamonds, clubs.
pub open spec fn suit_at(i: int) -> Suit {
    seq![Suit::Spades, Suit::Hearts, Suit::Diamonds, Suit::Clubs][i]
}

/// A new deck: for each suit in turn, its thirteen ranks from ace to king.
pub open spec fn full_deck() -> Seq<Card> {
    Seq::new(52, |i: int| Card { value: rank_at(i % 13), suit: suit_at(i / 13) })
}

/// What stays in the deck after dealing `n` cards from its end.
pub open spec fn dealt_rest(d: Seq<Card>, n: int) -> Seq<Card> {
    d.subrange(0, d.len() - n)
}

/// The `n` cards dealt from the end of the deck, in deck order.
pub open spec fn dealt_cards(d: Seq<Card>, n: int) -> Seq<Card> {
    d.subrange(d.len() - n, d.len() as int)
}

/// Relies on itertools' `cartesian_product`: each item of `a` paired with each item
/// of `b`, the items of `a` outermost.
#[verifier::external_body]
fn cartesian_pairs(a: &Vec<Suit>, b: &Vec<char>) -> (r: Vec<(Suit, char)>)
    ensures
        r@.len() == a@.len() * b@.len(),
        forall|i: int, j: int|
            0 <= i < a@.len() && 0 <= j < b@.len() ==> #[trigger] r@[i * b@.len() + j] == (a@[i], b@[j]),
{
    a.iter().cloned().cartesian_product(b.iter().cloned()).collect()
}

/// Relies on rand's `SliceRandom::shuffle` with the thread-local generator: it
/// reorders the cards in place, only by swapping them.
#[verifier::external_body]
fn shuffle_cards(v: &mut Vec<Card>)
    ensures
        final(v)@.len() == old(v)@.len(),
        final(v)@.to_multiset() == old(v)@.to_multiset(),
{
    v.shuffle(&mut rand::thread_rng());
}

/// The cards not in play, dealt from the end.
pub struct Deck {
    cards: Vec<Card>,
}

impl View for Deck {
    type V = Seq<Card>;

    closed spec fn view(&self) -> Seq<Card> {
        self.cards@
    }
}

impl Deck {
    pub fn new() -> (r: Deck)
        ensures
            r@ == full_deck(),
    {
        let suits = vec![Suit::Spades, Suit::Hearts, Suit::Diamonds, Suit::Clubs];
        let ranks = vec!['A', '2', '3', '4', '5', '6', '7', '8', '9', 'T', 'J', 'Q', 'K'];
        let pairs = cartesian_pairs(&suits, &ranks);
        proof {
            assert(suits@ == seq![Suit::Spades, Suit::Hearts, Suit::Diamonds, Suit::Clubs]);
            assert(ranks@ == seq!['A', '2', '3', '4', '5', '6', '7', '8', '9', 'T', 'J', 'Q', 'K']);
        }
        let mut cards: Vec<Card> = Vec::new();
        let mut k: usize = 0;
        while k < pairs.len()
            invariant
                pairs@.len() == 52,
                k <= 52,
                suits@ == seq![Suit::Spades, Suit::Hearts, Suit::Diamonds, Suit::Clubs],
                ranks@ == seq!['A', '2', '3', '4', '5', '6', '7', '8', '9', 'T', 'J', 'Q', 'K'],
                forall|i: int, j: int|
                    0 <= i < 4 && 0 <= j < 13 ==> #[trigger] pairs@[i * 13 + j] == (suits@[i], ranks@[j]),
                cards@.len() == k,
                forall|t: int| 0 <= t < k ==> #[trigger] cards@[t] == full_deck()[t],
            decreases 52 - k,
        {
            let (suit, value) = pairs[k];
            proof {
                let i = k as int / 13;
                let j = k as int % 13;
                assert(pairs@[i * 13 + j] == (suits@[i], ranks@[j]));
                assert(i * 13 + j == k);
            }
            cards.push(Card { value, suit });
            k += 1;
        }
        proof {
            assert(cards@ =~= full_deck());
        }
        Deck { cards }
    }

    pub fn len(&self) -> (r: usize)
        ensures
            r == self@.len(),
    {
        self.cards.len()
    }

    /// Puts the cards in a random order; the deck must be whole.
    pub fn shuffle(&mut self)
        requires
            old(self)@.len() == 52,
        ensures
            final(self)@.len() == 52,
            final(self)@.to_multiset() == old(self)@.to_multiset(),
    {
        shuffle_cards(&mut self.cards);
    }

    /// Takes `num` cards off the end of the deck as a hand without a magic card.
    pub fn deal(&mut self, num: usize) -> (r: Hand)
        requires
            num <= old(self)@.len(),
        ensures
            final(self)@ == dealt_rest(old(self)@, num as int),
            r@.cards == dealt_cards(old(self)@, num as int),
            r@.magic is None,
    {
        let at = self.cards.len() - num;
        Hand::from(self.cards.split_off(at), None)
    }

    /// The magic card: the last card of the deck, which stays in it.
    pub fn draw_magic(&self) -> (r: &Card)
        requires
            self@.len() > 0,
        ensures
            *r == self@.last(),
    {
        self.cards.last().unwrap()
    }

    /// Puts a hand's cards back at the end of the deck.
    pub fn rejoin(&mut self, hand: Hand)
        ensures
            final(self)@ == old(self)@ + hand@.cards,
    {
        let mut cards = hand.into_cards();
        self.cards.append(&mut cards);
    }
}

/// Dealing any number of cards from a deck and rejoining them restores the deck,
/// card for card and so also as a multiset.
pub proof fn lemma_deal_rejoin(d: Seq<Card>, n: int)
    requires
        0 <= n <= d.len(),
    ensures
        dealt_rest(d, n) + dealt_cards(d, n) == d,
        (dealt_rest(d, n) + dealt_cards(d, n)).to_multiset() == d.to_multiset(),
{
    assert(dealt_rest(d, n) + dealt_cards(d, n) =~= d);
}

} // verus!
