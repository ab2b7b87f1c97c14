//! Cards: rank tokens and their strengths, suits, and the two-character
//! card token that travels on the wire.

use vstd::prelude::*;
use vstd::string::*;

verus! {

/// The lowest strength a card can have.
pub const MIN_RANK: u8 = 2;

/// The highest strength a card can have (the ace).
pub const MAX_RANK: u8 = 14;

/// The strength that a rank token stands for, or 0 where the token names no rank.
pub open spec fn rank_value(c: char) -> int {
    if c == '2' {
        2
    } else if c == '3' {
        3
    } else if c == '4' {
        4
    } else if c == '5' {
        5
    } else if c == '6' {
        6
    } else if c == '7' {
        7
    } else if c == '8' {
        8
    } else if c == '9' {
        9
    } else if c == 'T' {
        10
    } else if c == 'J' {
        11
    } else if c == 'Q' {
        12
    } else if c == 'K' {
        13
    } else if c == 'A' {
        14
    } else {
        0
    }
}

/// The token of a strength, or a space where the number is no strength.
pub open spec fn rank_token(value: int) -> char {
    if value == 2 {
        '2'
    } else if value == 3 {
        '3'
    } else if value == 4 {
        '4'
    } else if value == 5 {
        '5'
    } else if value == 6 {
        '6'
    } else if value == 7 {
        '7'
    } else if value == 8 {
        '8'
    } else if value == 9 {
        '9'
    } else if value == 10 {
        'T'
    } else if value == 11 {
        'J'
    } else if value == 12 {
        'Q'
    } else if value == 13 {
        'K'
    } else if value == 14 {
        'A'
    } else {
        ' '
    }
}

/// The strength of a rank token: 2 to 14, or 0 for any other character.
pub fn encode(c: char) -> (value: i32)
    ensures
        value == rank_value(c),
{
    if c == '2' {
        2
    } else if c == '3' {
        3
    } else if c == '4' {
        4
    } else if c == '5' {
        5
    } else if c == '6' {
        6
    } else if c == '7' {
        7
    } else if c == '8' {
        8
    } else if c == '9' {
        9
    } else if c == 'T' {
        10
    } else if c == 'J' {
        11
    } else if c == 'Q' {
        12
    } else if c == 'K' {
        13
    } else if c == 'A' {
        14
    } else {
        0
    }
}

/// The rank token of a strength from 2 to 14, or a space for any other number.
pub fn decode(num: i32) -> (token: char)
    ensures
        token == rank_token(num as int),
{
    if num == 2 {
        '2'
    } else if num == 3 {
        '3'
    } else if num == 4 {
        '4'
    } else if num == 5 {
        '5'
    } else if num == 6 {
        '6'
    } else if num == 7 {
        '7'
    } else if num == 8 {
        '8'
    } else if num == 9 {
        '9'
    } else if num == 10 {
        'T'
    } else if num == 11 {
        'J'
    } else if num == 12 {
        'Q'
    } else if num == 13 {
        'K'
    } else if num == 14 {
        'A'
    } else {
        ' '
    }
}

/// Every strength from 2 to 14 is the strength of its own token, and no
/// other number has a token that carries a strength.
pub proof fn lemma_encode_decode(value: int)
    ensures
        2 <= value <= 14 ==> rank_value(rank_token(value)) == value,
        !(2 <= value <= 14) ==> rank_value(rank_token(value)) == 0,
{
}

/// A character is the token of its strength exactly when it names a rank,
/// and the strength of a token is always 0 or within 2 to 14.
pub proof fn lemma_decode_encode(c: char)
    ensures
        rank_value(c) != 0 ==> rank_token(rank_value(c)) == c,
        rank_value(c) == 0 || 2 <= rank_value(c) <= 14,
{
}

/// One of the four suits.
#[derive(Clone, Copy, Debug, PartialEq, Eq, Structural)]
pub enum Suit {
    Hearts,
    Diamonds,
    Spades,
    Clubs,
}

/// The suit that a character names, if any.
pub open spec fn suit_of(c: char) -> Option<Suit> {
    if c == 'H' {
        Some(Suit::Hearts)
    } else if c == 'D' {
        Some(Suit::Diamonds)
    } else if c == 'S' {
        Some(Suit::Spades)
    } else if c == 'C' {
        Some(Suit::Clubs)
    } else {
        None
    }
}

/// The character that names a suit.
pub open spec fn suit_token(suit: Suit) -> char {
    match suit {
        Suit::Hearts => 'H',
        Suit::Diamonds => 'D',
        Suit::Spades => 'S',
        Suit::Clubs => 'C',
    }
}

impl Suit {
    /// The suit named by `H`, `D`, `S` or `C`; nothing for any other character.
    pub fn from_token(c: char) -> (suit: Option<Suit>)
        ensures
            suit == suit_of(c),
    {
        if c == 'H' {
            Some(Suit::Hearts)
        } else if c == 'D' {
            Some(Suit::Diamonds)
        } else if c == 'S' {
            Some(Suit::Spades)
        } else if c == 'C' {
            Some(Suit::Clubs)
        } else {
            None
        }
    }

    /// The character that names this suit.
    pub fn token(self) -> (c: char)
        ensures
            c == suit_token(self),
            suit_of(c) == Some(self),
    {
        match self {
            Suit::Hearts => 'H',
            Suit::Diamonds => 'D',
            Suit::Spades => 'S',
            Suit::Clubs => 'C',
        }
    }
}

/// A playing card: a strength and a suit.
#[derive(Clone, Copy, Debug, PartialEq, Eq, Structural)]
pub struct Card {
    pub rank: u8,
    pub suit: Suit,
}

impl Card {
    /// A card is real when its strength lies within 2 to 14.
    pub open spec fn is_valid(self) -> bool {
        MIN_RANK <= self.rank <= MAX_RANK
    }

    /// The two characters of this card on the wire: rank token, then suit.
    pub open spec fn token_spec(self) -> Seq<char> {
        seq![rank_token(self.rank as int), suit_token(self.suit)]
    }

    /// The card of the given strength and suit, where the strength is one.
    pub fn new(rank: u8, suit: Suit) -> (card: Option<Card>)
        ensures
            card == if MIN_RANK <= rank <= MAX_RANK {
                Some(Card { rank, suit })
            } else {
                None::<Card>
            },
    {
        if MIN_RANK <= rank && rank <= MAX_RANK {
            Some(Card { rank, suit })
        } else {
            None
        }
    }

    /// The rank token of this card, a space where the card is not real.
    pub fn rank_char(self) -> (c: char)
        ensures
            c == rank_token(self.rank as int),
    {
        let value: i32 = self.rank as i32;
        decode(value)
    }
}

/// The card that a token names: a rank token followed by a suit character,
/// and nothing else.
pub open spec fn parse_card_spec(token: Seq<char>) -> Option<Card> {
    if token.len() == 2 && rank_value(token[0]) != 0 && suit_of(token[1]) is Some {
        Some(Card { rank: rank_value(token[0]) as u8, suit: suit_of(token[1])->Some_0 })
    } else {
        None
    }
}

/// Reads a card token such as `9H` or `TS`.
pub fn parse_card(token: &str) -> (card: Option<Card>)
    ensures
        card == parse_card_spec(token@),
        card is Some ==> card->Some_0.is_valid(),
{
    if token.unicode_len() != 2 {
        return None;
    }
    let value: i32 = encode(token.get_char(0));
    if value == 0 {
        return None;
    }
    match Suit::from_token(token.get_char(1)) {
        Some(suit) => Some(Card { rank: value as u8, suit }),
        None => None,
    }
}

/// Reading back the token of a real card gives that card.
pub proof fn lemma_parse_token(card: Card)
    requires
        card.is_valid(),
    ensures
        parse_card_spec(card.token_spec()) == Some(card),
{
}

} // verus!
