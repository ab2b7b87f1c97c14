use rats::card::{Card, Suit};
use rats::deck::{build_deck, deal, deal_game, shuffle, SeededSource};

fn sorted_tokens(cards: &[Card]) -> Vec<(u8, u8)> {
    let mut keys: Vec<(u8, u8)> = cards
        .iter()
        .map(|c| {
            let suit = match c.suit {
                Suit::Hearts => 0,
                Suit::Diamonds => 1,
                Suit::Clubs => 2,
                Suit::Spades => 3,
            };
            (suit, c.rank)
        })
        .collect();
    keys.sort();
    keys
}

#[test]
fn fresh_deck_has_every_card_once_in_fixed_order() {
    let deck = build_deck();
    assert_eq!(deck.len(), 52);
    assert_eq!(deck[0], Card { rank: 2, suit: Suit::Hearts });
    assert_eq!(deck[12], Card { rank: 14, suit: Suit::Hearts });
    assert_eq!(deck[13], Card { rank: 2, suit: Suit::Diamonds });
    assert_eq!(deck[26], Card { rank: 2, suit: Suit::Clubs });
    assert_eq!(deck[39], Card { rank: 2, suit: Suit::Spades });
    assert_eq!(deck[51], Card { rank: 14, suit: Suit::Spades });
    let keys = sorted_tokens(&deck);
    for i in 1..keys.len() {
        assert_ne!(keys[i - 1], keys[i]);
    }
    assert_eq!(build_deck(), deck);
}

#[test]
fn shuffle_rearranges_and_keeps_every_card() {
    let fresh = build_deck();
    let mut deck = build_deck();
    let mut source = SeededSource::new(2024);
    shuffle(&mut deck, &mut source);
    assert_eq!(deck.len(), 52);
    assert_ne!(deck, fresh);
    assert_eq!(sorted_tokens(&deck), sorted_tokens(&fresh));
}

#[test]
fn shuffle_is_reproducible_from_the_seed() {
    let mut first = build_deck();
    let mut second = build_deck();
    let mut third = build_deck();
    shuffle(&mut first, &mut SeededSource::new(7));
    shuffle(&mut second, &mut SeededSource::new(7));
    shuffle(&mut third, &mut SeededSource::new(8));
    assert_eq!(first, second);
    assert_ne!(first, third);
}

#[test]
fn shuffle_follows_the_generator() {
    // One step of the generator from seed 0 gives the increment itself.
    let mut source = SeededSource::new(0);
    assert_eq!(source.next_u64(), 1442695040888963407u64 >> 33);
    assert_eq!(source.state, 1442695040888963407u64);

    // A deck of two cards is exchanged exactly when the pick below 2 is 0.
    let two = vec![
        Card { rank: 2, suit: Suit::Hearts },
        Card { rank: 3, suit: Suit::Hearts },
    ];
    let mut deck = two.clone();
    let mut source = SeededSource::new(0);
    shuffle(&mut deck, &mut source);
    let pick = (1442695040888963407u64 >> 33) % 2;
    if pick == 0 {
        assert_eq!(deck, vec![two[1], two[0]]);
    } else {
        assert_eq!(deck, two);
    }
    assert_eq!(source.state, 1442695040888963407u64);
}

#[test]
fn next_below_stays_below_the_bound() {
    let mut source = SeededSource::new(99);
    for bound in 1..200usize {
        assert!(source.next_below(bound) < bound);
    }
    assert_eq!(source.next_below(0), 0);
    assert_eq!(source.next_below(1), 0);
}

#[test]
fn shuffle_of_short_decks_changes_nothing() {
    let mut empty: Vec<Card> = Vec::new();
    let mut source = SeededSource::new(5);
    shuffle(&mut empty, &mut source);
    assert!(empty.is_empty());
    assert_eq!(source.state, 5);
    let mut one = vec![Card { rank: 9, suit: Suit::Clubs }];
    shuffle(&mut one, &mut source);
    assert_eq!(one, vec![Card { rank: 9, suit: Suit::Clubs }]);
    assert_eq!(source.state, 5);
}

#[test]
fn deal_splits_into_equal_runs_in_deck_order() {
    let deck = build_deck();
    let hands = deal(&deck, 4);
    assert_eq!(hands.len(), 4);
    for seat in 0..4 {
        assert_eq!(hands[seat].len(), 13);
        assert_eq!(hands[seat][..], deck[seat * 13..seat * 13 + 13]);
    }
}

#[test]
fn deal_drops_the_remainder() {
    let deck = build_deck();
    let hands = deal(&deck, 5);
    assert_eq!(hands.len(), 5);
    let mut dealt: Vec<Card> = Vec::new();
    for hand in &hands {
        assert_eq!(hand.len(), 10);
        dealt.extend_from_slice(hand);
    }
    assert_eq!(dealt[..], deck[..50]);
    assert!(!dealt.contains(&deck[50]));
    assert!(!dealt.contains(&deck[51]));
}

#[test]
fn deal_to_more_players_than_cards_gives_empty_hands() {
    let deck = vec![Card { rank: 2, suit: Suit::Hearts }, Card { rank: 3, suit: Suit::Hearts }];
    let hands = deal(&deck, 3);
    assert_eq!(hands.len(), 3);
    assert!(hands.iter().all(|hand| hand.is_empty()));
    assert!(deal(&deck, 0).is_empty());
}

#[test]
fn dealt_game_conserves_the_deck() {
    for seed in [0u64, 1, 42, 123456789, u64::MAX] {
        let mut source = SeededSource::new(seed);
        let hands = deal_game(&mut source);
        assert_eq!(hands.len(), 4);
        let mut all: Vec<Card> = Vec::new();
        for hand in &hands {
            assert_eq!(hand.len(), 13);
            all.extend_from_slice(hand);
        }
        assert_eq!(sorted_tokens(&all), sorted_tokens(&build_deck()));
        let keys = sorted_tokens(&all);
        for i in 1..keys.len() {
            assert_ne!(keys[i - 1], keys[i]);
        }
    }
}
