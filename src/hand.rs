use vstd::prelude::*;
use crate::card::Card;

verus! {

/// What a hand holds: its cards in insertion order and the magic card, if set.
pub struct HandView {
    pub cards: Seq<Card>,
    pub magic: Option<Card>,
}

/// A sequence of cards, plus an optional magic card for the show.
#[derive(Clone, Debug, PartialEq, Eq)]
pub struct Hand {
    cards: Vec<Card>,
    magic: Option<Card>,
}

impl View for Hand {
    type V = HandView;

    closed spec fn view(&self) -> HandView {
        HandView { cards: self.cards@, magic: self.magic }
    }
}

impl Hand {
    pub fn from(cards: Vec<Card>, magic: Option<Card>) -> (r: Hand)
        ensures
            r@.cards == cards@,
            r@.magic == magic,
    {
        Hand { cards, magic }
    }

    pub fn new() -> (r: Hand)
        ensures
            r@.cards == Seq::<Card>::empty(),
            r@.magic is None,
    {
        Hand { cards: Vec::new(), magic: None }
    }

    pub fn cards(&self) -> (r: &[Card])
        ensures
            r@ == self@.cards,
    {
        self.cards.as_slice()
    }

    pub fn push(&mut self, card: Card)
        ensures
            final(self)@.cards == old(self)@.cards.push(card),
            final(self)@.magic == old(self)@.magic,
    {
        self.cards.push(card);
    }

    /// Takes out the card at `index`; the cards after it move down by one.
    pub fn remove(&mut self, index: usize) -> (r: Card)
        requires
            index < old(self)@.cards.len(),
        ensures
            r == old(self)@.cards[index as int],
            final(self)@.cards == old(self)@.cards.remove(index as int),
            final(self)@.magic == old(self)@.magic,
    {
        self.cards.remove(index)
    }

    /// Takes out every card equal to `card`, keeping the others in order.
    pub fn remove_card(&mut self, card: &Card)
        ensures
            final(self)@.cards == old(self)@.cards.filter(|c: Card| c != *card),
            final(self)@.magic == old(self)@.magic,
    {
        let ghost old_cards = self.cards@;
        let mut kept: Vec<Card> = Vec::new();
        let mut i: usize = 0;
        while i < self.cards.len()
            invariant
                self.cards@ == old_cards,
                i <= old_cards.len(),
                kept@ == old_cards.take(i as int).filter(|c: Card| c != *card),
            decreases old_cards.len() - i,
        {
            let c = self.cards[i];
            proof {
                assert(old_cards.take(i + 1).drop_last() =~= old_cards.take(i as int));
                reveal(Seq::filter);
            }
            if c != *card {
                kept.push(c);
            }
            i += 1;
        }
        proof {
            assert(old_cards.take(old_cards.len() as int) =~= old_cards);
        }
        self.cards = kept;
    }

    /// Moves all of `other`'s cards, in order, to the end of this hand.
    pub fn combine(&mut self, other: &mut Hand)
        ensures
            final(self)@.cards == old(self)@.cards + old(other)@.cards,
            final(self)@.magic == old(self)@.magic,
            final(other)@.cards == Seq::<Card>::empty(),
            final(other)@.magic == old(other)@.magic,
    {
        self.cards.append(&mut other.cards);
    }

    pub fn set_magic(&mut self, magic: Card)
        ensures
            final(self)@.cards == old(self)@.cards,
            final(self)@.magic == Some(magic),
    {
        self.magic = Some(magic);
    }

    /// The hand's cards, taking the hand apart.
    pub(crate) fn into_cards(self) -> (r: Vec<Card>)
        ensures
            r@ == self@.cards,
    {
        self.cards
    }

    pub fn len(&self) -> (r: usize)
        ensures
            r == self@.cards.len(),
    {
        self.cards.len()
    }

    pub fn magic(&self) -> (r: Option<&Card>)
        ensures
            r is None <==> self@.magic is None,
            r matches Some(c) ==> self@.magic == Some(*c),
    {
        match &self.magic {
            Some(c) => Some(c),
            None => None,
        }
    }
}

} // verus!
