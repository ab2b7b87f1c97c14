use rats::card::{decode, encode, parse_card, Card, Suit};

#[test]
fn encode_gives_strengths() {
    assert_eq!(encode('2'), 2);
    assert_eq!(encode('9'), 9);
    assert_eq!(encode('T'), 10);
    assert_eq!(encode('J'), 11);
    assert_eq!(encode('Q'), 12);
    assert_eq!(encode('K'), 13);
    assert_eq!(encode('A'), 14);
}

#[test]
fn encode_rejects_other_characters() {
    assert_eq!(encode('1'), 0);
    assert_eq!(encode('0'), 0);
    assert_eq!(encode(' '), 0);
    assert_eq!(encode('a'), 0);
    assert_eq!(encode('H'), 0);
}

#[test]
fn decode_gives_tokens() {
    assert_eq!(decode(2), '2');
    assert_eq!(decode(9), '9');
    assert_eq!(decode(10), 'T');
    assert_eq!(decode(11), 'J');
    assert_eq!(decode(12), 'Q');
    assert_eq!(decode(13), 'K');
    assert_eq!(decode(14), 'A');
}

#[test]
fn decode_rejects_other_numbers() {
    assert_eq!(decode(0), ' ');
    assert_eq!(decode(1), ' ');
    assert_eq!(decode(15), ' ');
    assert_eq!(decode(-3), ' ');
}

#[test]
fn codec_round_trips() {
    for value in 2..=14 {
        assert_eq!(encode(decode(value)), value);
    }
}

#[test]
fn parse_card_reads_rank_then_suit() {
    assert_eq!(parse_card("9H"), Some(Card { rank: 9, suit: Suit::Hearts }));
    assert_eq!(parse_card("TS"), Some(Card { rank: 10, suit: Suit::Spades }));
    assert_eq!(parse_card("AC"), Some(Card { rank: 14, suit: Suit::Clubs }));
    assert_eq!(parse_card("2D"), Some(Card { rank: 2, suit: Suit::Diamonds }));
}

#[test]
fn parse_card_rejects_malformed_tokens() {
    assert_eq!(parse_card(""), None);
    assert_eq!(parse_card("9"), None);
    assert_eq!(parse_card("H9"), None);
    assert_eq!(parse_card("1H"), None);
    assert_eq!(parse_card("9X"), None);
    assert_eq!(parse_card("9HH"), None);
}

#[test]
fn cards_have_strengths_from_2_to_14() {
    assert_eq!(Card::new(2, Suit::Clubs), Some(Card { rank: 2, suit: Suit::Clubs }));
    assert_eq!(Card::new(14, Suit::Hearts), Some(Card { rank: 14, suit: Suit::Hearts }));
    assert_eq!(Card::new(1, Suit::Hearts), None);
    assert_eq!(Card::new(0, Suit::Hearts), None);
    assert_eq!(Card::new(15, Suit::Hearts), None);
    assert_eq!(Card { rank: 10, suit: Suit::Spades }.rank_char(), 'T');
    assert_eq!(Card { rank: 14, suit: Suit::Spades }.rank_char(), 'A');
    assert_eq!(Card { rank: 0, suit: Suit::Spades }.rank_char(), ' ');
}

#[test]
fn suits_have_one_letter_each() {
    for (suit, letter) in
        [(Suit::Hearts, 'H'), (Suit::Diamonds, 'D'), (Suit::Spades, 'S'), (Suit::Clubs, 'C')]
    {
        assert_eq!(suit.token(), letter);
        assert_eq!(Suit::from_token(letter), Some(suit));
    }
    assert_eq!(Suit::from_token('h'), None);
    assert_eq!(Suit::from_token('X'), None);
    assert_eq!(Suit::from_token('9'), None);
}
