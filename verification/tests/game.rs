use rats::card::{Card, Suit};
use rats::game::{
    find_card, trick_winner, GameInfo, GameState, PlayError, PlayResult, ReadyResult, Team,
};

fn card(rank: u8, suit: Suit) -> Card {
    Card { rank, suit }
}

fn started_game(hand_size: usize) -> GameInfo {
    let mut game = GameInfo::new(String::from("G"));
    for session in 10..14 {
        assert!(game.join(session).is_some());
    }
    assert_eq!(game.mark_ready(), ReadyResult::Counted);
    assert_eq!(game.mark_ready(), ReadyResult::Counted);
    assert_eq!(game.mark_ready(), ReadyResult::Counted);
    assert_eq!(game.mark_ready(), ReadyResult::AllReady);
    assert!(game.start(hand_size));
    game
}

#[test]
fn off_suit_card_cannot_win() {
    let slots = vec![
        Some(card(5, Suit::Hearts)),
        Some(card(14, Suit::Diamonds)),
        Some(card(9, Suit::Hearts)),
        Some(card(2, Suit::Hearts)),
    ];
    assert_eq!(trick_winner(&slots, Suit::Hearts), 2);
}

#[test]
fn strongest_card_of_the_leading_suit_wins() {
    let slots = vec![
        Some(card(5, Suit::Spades)),
        Some(card(14, Suit::Spades)),
        Some(card(9, Suit::Spades)),
        Some(card(2, Suit::Spades)),
    ];
    assert_eq!(trick_winner(&slots, Suit::Spades), 1);
    let lone = vec![
        Some(card(14, Suit::Clubs)),
        Some(card(13, Suit::Clubs)),
        Some(card(2, Suit::Diamonds)),
        Some(card(12, Suit::Clubs)),
    ];
    assert_eq!(trick_winner(&lone, Suit::Diamonds), 2);
}

#[test]
fn find_card_gives_the_first_copy() {
    let hand = vec![card(3, Suit::Clubs), card(9, Suit::Hearts), card(3, Suit::Clubs)];
    assert_eq!(find_card(&hand, card(3, Suit::Clubs)), Some(0));
    assert_eq!(find_card(&hand, card(9, Suit::Hearts)), Some(1));
    assert_eq!(find_card(&hand, card(9, Suit::Clubs)), None);
    assert_eq!(find_card(&Vec::new(), card(9, Suit::Clubs)), None);
}

#[test]
fn game_seats_up_to_four_players() {
    let mut game = GameInfo::new(String::from("table"));
    assert_eq!(game.state, GameState::Waiting);
    assert_eq!(game.join(7), Some(0));
    assert_eq!(game.join(7), None);
    assert_eq!(game.join(3), Some(1));
    assert_eq!(game.join(9), Some(2));
    assert_eq!(game.join(1), Some(3));
    assert_eq!(game.join(2), None);
    assert_eq!(game.players, vec![7, 3, 9, 1]);
    assert_eq!(game.seat_of(9), Some(2));
    assert_eq!(game.seat_of(2), None);
}

#[test]
fn readiness_is_counted_up_to_the_seated() {
    let mut game = GameInfo::new(String::from("table"));
    assert_eq!(game.mark_ready(), ReadyResult::Refused);
    game.join(1);
    assert_eq!(game.mark_ready(), ReadyResult::Counted);
    assert_eq!(game.mark_ready(), ReadyResult::Refused);
    assert_eq!(game.ready_count, 1);
    assert!(!game.start(13));
    assert_eq!(game.state, GameState::Waiting);
}

#[test]
fn fourth_ready_player_makes_the_game_ready() {
    let mut game = GameInfo::new(String::from("table"));
    for session in 0..4 {
        game.join(session);
    }
    for _ in 0..3 {
        assert_eq!(game.mark_ready(), ReadyResult::Counted);
    }
    assert_eq!(game.mark_ready(), ReadyResult::AllReady);
    assert_eq!(game.state, GameState::Ready);
    assert_eq!(game.mark_ready(), ReadyResult::Refused);
    assert_eq!(game.join(8), None);
    assert!(!game.start(0));
    assert!(game.start(13));
    assert_eq!(game.state, GameState::Playing);
    assert_eq!(game.turn, 0);
    assert_eq!(game.tricks_left, 13);
    assert!(!game.start(13));
}

#[test]
fn plays_are_checked_for_state_turn_and_hand() {
    let mut waiting = GameInfo::new(String::from("table"));
    let mut hand = vec![card(5, Suit::Hearts)];
    assert_eq!(
        waiting.play(0, card(5, Suit::Hearts), &mut hand),
        PlayResult::Rejected(PlayError::NotPlaying)
    );
    let mut game = started_game(2);
    assert_eq!(
        game.play(1, card(5, Suit::Hearts), &mut hand),
        PlayResult::Rejected(PlayError::OutOfTurn)
    );
    assert_eq!(
        game.play(0, card(6, Suit::Hearts), &mut hand),
        PlayResult::Rejected(PlayError::NotHeld)
    );
    assert_eq!(hand, vec![card(5, Suit::Hearts)]);
    assert_eq!(game.trick_count, 0);
    assert_eq!(game.play(0, card(5, Suit::Hearts), &mut hand), PlayResult::Placed);
    assert!(hand.is_empty());
    assert_eq!(game.suit, Some(Suit::Hearts));
    assert_eq!(game.leader, 0);
    assert_eq!(game.turn, 1);
    assert_eq!(game.slots[0], Some(card(5, Suit::Hearts)));
}

#[test]
fn trick_goes_to_the_leading_suit_and_winner_leads_next() {
    let mut game = started_game(2);
    let mut hands = vec![
        vec![card(5, Suit::Hearts), card(3, Suit::Clubs)],
        vec![card(14, Suit::Diamonds), card(4, Suit::Clubs)],
        vec![card(9, Suit::Hearts), card(5, Suit::Clubs)],
        vec![card(2, Suit::Hearts), card(6, Suit::Clubs)],
    ];
    assert_eq!(game.play(0, card(5, Suit::Hearts), &mut hands[0]), PlayResult::Placed);
    assert_eq!(game.play(1, card(14, Suit::Diamonds), &mut hands[1]), PlayResult::Placed);
    assert_eq!(game.play(2, card(9, Suit::Hearts), &mut hands[2]), PlayResult::Placed);
    assert_eq!(
        game.play(3, card(2, Suit::Hearts), &mut hands[3]),
        PlayResult::TrickTaken { winner: 2 }
    );
    assert_eq!((game.team_one, game.team_two), (1, 0));
    assert_eq!(game.turn, 2);
    assert_eq!(game.leader, 2);
    assert_eq!(game.suit, None);
    assert_eq!(game.trick_count, 0);
    assert_eq!(game.tricks_left, 1);
    assert!(game.slots.iter().all(|slot| slot.is_none()));

    assert_eq!(
        game.play(3, card(6, Suit::Clubs), &mut hands[3]),
        PlayResult::Rejected(PlayError::OutOfTurn)
    );
    assert_eq!(game.play(2, card(5, Suit::Clubs), &mut hands[2]), PlayResult::Placed);
    assert_eq!(game.play(3, card(6, Suit::Clubs), &mut hands[3]), PlayResult::Placed);
    assert_eq!(game.play(0, card(3, Suit::Clubs), &mut hands[0]), PlayResult::Placed);
    assert_eq!(
        game.play(1, card(4, Suit::Clubs), &mut hands[1]),
        PlayResult::GameFinished { winner: 3, team: Team::Two }
    );
    assert_eq!((game.team_one, game.team_two), (1, 1));
    assert_eq!(game.state, GameState::Completed);
    assert!(hands.iter().all(|hand| hand.is_empty()));
    assert_eq!(
        game.play(3, card(6, Suit::Clubs), &mut hands[3]),
        PlayResult::Rejected(PlayError::NotPlaying)
    );
}

#[test]
fn team_with_more_tricks_wins() {
    let mut game = started_game(1);
    let mut hands = vec![
        vec![card(14, Suit::Spades)],
        vec![card(2, Suit::Spades)],
        vec![card(3, Suit::Spades)],
        vec![card(4, Suit::Spades)],
    ];
    for seat in 0..3 {
        let played = hands[seat][0];
        assert_eq!(game.play(seat, played, &mut hands[seat]), PlayResult::Placed);
    }
    assert_eq!(
        game.play(3, card(4, Suit::Spades), &mut hands[3]),
        PlayResult::GameFinished { winner: 0, team: Team::One }
    );
    assert_eq!(game.winning_team(), Team::One);
}

#[test]
fn tie_goes_to_team_two() {
    let game = GameInfo::new(String::from("table"));
    assert_eq!((game.team_one, game.team_two), (0, 0));
    assert_eq!(game.winning_team(), Team::Two);
}

#[test]
fn scores_add_up_to_the_tricks_resolved() {
    let mut game = started_game(13);
    let mut hands: Vec<Vec<Card>> = rats::deck::deal(&rats::deck::build_deck(), 4);
    let mut resolved = 0;
    let mut last = (0, 0);
    while game.state == GameState::Playing {
        let seat = game.turn;
        let played = hands[seat][0];
        match game.play(seat, played, &mut hands[seat]) {
            PlayResult::Placed => {}
            PlayResult::TrickTaken { .. } | PlayResult::GameFinished { .. } => resolved += 1,
            PlayResult::Rejected(error) => panic!("rejected: {:?}", error),
        }
        assert_eq!(game.team_one + game.team_two, resolved);
        assert!(game.team_one >= last.0 && game.team_two >= last.1);
        last = (game.team_one, game.team_two);
    }
    assert_eq!(resolved, 13);
    assert!(hands.iter().all(|hand| hand.is_empty()));
}

#[test]
fn aborted_game_takes_no_more_cards() {
    let mut game = started_game(3);
    game.abort();
    assert_eq!(game.state, GameState::Completed);
    let mut hand = vec![card(5, Suit::Hearts)];
    assert_eq!(
        game.play(0, card(5, Suit::Hearts), &mut hand),
        PlayResult::Rejected(PlayError::NotPlaying)
    );
}
