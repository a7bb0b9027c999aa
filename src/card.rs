use vstd::prelude::*;
use crate::codec::utf8_string;

verus! {

#[derive(Clone, Copy, Debug, PartialEq, Eq, Hash, Structural)]
pub enum Suit {
    Spades,
    Hearts,
    Diamonds,
    Clubs,
}

/// A playing card: a rank symbol (`A`, `2`..`9`, `T`, `J`, `Q`, `K`) and a suit.
#[derive(Clone, Copy, Debug, PartialEq, Eq, Hash, Structural)]
pub struct Card {
    pub value: char,
    pub suit: Suit,
}

/// The position of a rank symbol in `A23456789TJQK`, counting from 1; 0 for any other char.
pub open spec fn rank_order(c: char) -> int {
    if c == 'A' {
        1
    } else if c == '2' {
        2
    } else if c == '3' {
        3
    } else if c == '4' {
        4
    } else if c == '5' {
        5
    } else if c == '6' {
        6
    } else if c == '7' {
        7
    } else if c == '8' {
        8
    } else if c == '9' {
        9
    } else if c == 'T' {
        10
    } else if c == 'J' {
        11
    } else if c == 'Q' {
        12
    } else if c == 'K' {
        13
    } else {
        0
    }
}

pub open spec fn is_rank(c: char) -> bool {
    rank_order(c) > 0
}

/// The letter that stands for a suit on the wire.
pub open spec fn suit_letter(s: Suit) -> char {
    match s {
        Suit::Spades => 'S',
        Suit::Hearts => 'H',
        Suit::Diamonds => 'D',
        Suit::Clubs => 'C',
    }
}

/// The suit that a wire letter stands for.
pub open spec fn suit_of_letter(c: char) -> Option<Suit> {
    if c == 'S' {
        Some(Suit::Spades)
    } else if c == 'H' {
        Some(Suit::Hearts)
    } else if c == 'D' {
        Some(Suit::Diamonds)
    } else if c == 'C' {
        Some(Suit::Clubs)
    } else {
        None
    }
}

impl Card {
    /// The card's rank is one of the thirteen symbols.
    pub open spec fn wf(self) -> bool {
        is_rank(self.value)
    }

    /// Sequencing position, 1 (ace) to 13 (king).
    pub open spec fn ord(self) -> int {
        rank_order(self.value)
    }

    /// Face value for totals: the order, with ten for `T`, `J`, `Q` and `K`.
    pub open spec fn points(self) -> int {
        if self.ord() > 10 {
            10
        } else {
            self.ord()
        }
    }

    /// The two-character wire code: rank symbol, then suit letter.
    pub open spec fn code(self) -> Seq<char> {
        seq![self.value, suit_letter(self.suit)]
    }

    pub fn score_value(&self) -> (r: u8)
        requires
            self.wf(),
        ensures
            r == self.points(),
            1 <= r <= 10,
    {
        match self.value {
            'A' => 1,
            '2' => 2,
            '3' => 3,
            '4' => 4,
            '5' => 5,
            '6' => 6,
            '7' => 7,
            '8' => 8,
            '9' => 9,
            _ => 10,
        }
    }

    pub fn order(&self) -> (r: u8)
        requires
            self.wf(),
        ensures
            r == self.ord(),
            1 <= r <= 13,
    {
        match self.value {
            'J' => 11,
            'Q' => 12,
            'K' => 13,
            _ => self.score_value(),
        }
    }

    pub fn to_net_name(&self) -> (r: String)
        requires
            self.wf(),
        ensures
            r@ == self.code(),
    {
        let bytes = code_bytes(self);
        proof {
            lemma_code_bytes_encode(*self);
            vstd::utf8::encode_utf8_decode_utf8(self.code());
            vstd::utf8::encode_utf8_valid_utf8(self.code());
        }
        match utf8_string(bytes) {
            Some(s) => s,
            None => {
                proof {
                    assert(false);
                }
                String::new()
            },
        }
    }

    /// Reads a card from its wire code; characters after the second are ignored.
    pub fn from_net_name(name: String) -> (r: Card)
        requires
            name@.len() >= 2,
            suit_of_letter(name@[1]) is Some,
        ensures
            r.value == name@[0],
            Some(r.suit) == suit_of_letter(name@[1]),
    {
        let value = name.as_str().get_char(0);
        let letter = name.as_str().get_char(1);
        let suit = match letter {
            'S' => Suit::Spades,
            'H' => Suit::Hearts,
            'D' => Suit::Diamonds,
            _ => Suit::Clubs,
        };
        Card { value, suit }
    }
}

/// The wire bytes of a card code: both characters are ASCII.
pub open spec fn code_byte_seq(c: Card) -> Seq<u8> {
    seq![c.value as u8, suit_letter(c.suit) as u8]
}

pub fn suit_byte(s: Suit) -> (r: u8)
    ensures
        r == suit_letter(s) as u8,
{
    match s {
        Suit::Spades => 0x53,
        Suit::Hearts => 0x48,
        Suit::Diamonds => 0x44,
        Suit::Clubs => 0x43,
    }
}

pub fn code_bytes(c: &Card) -> (r: Vec<u8>)
    requires
        c.wf(),
    ensures
        r@ == code_byte_seq(*c),
{
    let v = c.value as u8;
    let mut r: Vec<u8> = Vec::new();
    r.push(v);
    r.push(suit_byte(c.suit));
    r
}

proof fn lemma_code_bytes_encode(c: Card)
    requires
        c.wf(),
    ensures
        vstd::utf8::encode_utf8(c.code()) == code_byte_seq(c),
{
    let s = c.code();
    assert(vstd::utf8::is_ascii_chars(s));
    vstd::utf8::is_ascii_chars_encode_utf8(s);
    assert(vstd::utf8::encode_utf8(s) =~= code_byte_seq(c));
}

/// Distinct well-formed cards have distinct wire codes.
pub proof fn lemma_code_byte_seq_injective(a: Card, b: Card)
    requires
        a.wf(),
        b.wf(),
        code_byte_seq(a) == code_byte_seq(b),
    ensures
        a == b,
{
    assert(code_byte_seq(a)[0] == code_byte_seq(b)[0]);
    assert(code_byte_seq(a)[1] == code_byte_seq(b)[1]);
    assert(a.value == b.value);
    assert(a.suit == b.suit);
}

/// No well-formed card has the code `go`.
pub proof fn lemma_code_byte_seq_not_go(a: Card)
    requires
        a.wf(),
    ensures
        code_byte_seq(a) != seq![0x67u8, 0x6Fu8],
{
    assert(code_byte_seq(a)[0] != 0x67u8);
}

/// Reads a card from its two wire bytes, if they are a rank symbol and a suit letter.
pub fn card_from_bytes(b0: u8, b1: u8) -> (r: Option<Card>)
    ensures
        r matches Some(c) ==> c.wf() && code_byte_seq(c) == seq![b0, b1],
        r is None ==> forall|c: Card| c.wf() ==> code_byte_seq(c) != seq![b0, b1],
{
    let value = b0 as char;
    let suit = match b1 {
        0x53 => Suit::Spades,
        0x48 => Suit::Hearts,
        0x44 => Suit::Diamonds,
        0x43 => Suit::Clubs,
        _ => {
            return None;
        },
    };
    let card = Card { value, suit };
    if is_rank_char(value) {
        Some(card)
    } else {
        None
    }
}

pub fn is_rank_char(c: char) -> (r: bool)
    ensures
        r == is_rank(c),
{
    match c {
        'A' | '2' | '3' | '4' | '5' | '6' | '7' | '8' | '9' | 'T' | 'J' | 'Q' | 'K' => true,
        _ => false,
    }
}

} // verus!
