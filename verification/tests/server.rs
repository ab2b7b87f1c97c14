use rats::card::Card;
use rats::context::{Outgoing, ServerContext};
use rats::game::GameState;
use rats::protocol::{render, Command, ErrorReason, Message};
use rats::session::SessionState;

fn server(max: usize) -> ServerContext {
    ServerContext::new(max, String::from("welcome to the table"), 11)
}

fn connect(ctx: &mut ServerContext, name: &str) -> usize {
    let greeting = ctx.connect(name).expect("a permit is free");
    assert!(matches!(&greeting.message, Message::Welcome(text) if text == "welcome to the table"));
    greeting.to
}

fn texts(out: &[Outgoing]) -> Vec<(usize, String)> {
    out.iter().map(|o| (o.to, render(&o.message))).collect()
}

fn hand(ctx: &ServerContext, session: usize) -> Vec<Card> {
    ctx.session(session).unwrap().hand.clone()
}

fn token(card: Card) -> String {
    let text = render(&Message::YourTurn(vec![card]));
    text["YOUR TURN\n".len()..text.len() - 1].to_string()
}

/// Four players join game "G" and all say READY.
fn table(ctx: &mut ServerContext) -> Vec<usize> {
    let names = ["ann", "bob", "cy", "dee"];
    let mut players = Vec::new();
    for name in names {
        let id = connect(ctx, name);
        let out = ctx.handle_line(id, "JOIN G\n");
        assert_eq!(texts(&out), vec![(id, String::from("JOINED\n"))]);
        players.push(id);
    }
    for (k, &id) in players.iter().enumerate() {
        let out = ctx.handle_line(id, "READY\n");
        if k < 3 {
            assert!(out.is_empty());
            assert_eq!(ctx.session(id).unwrap().state, SessionState::Ready);
        } else {
            assert_eq!(out.len(), 1);
            assert_eq!(out[0].to, players[0]);
        }
    }
    players
}

#[test]
fn four_ready_players_are_dealt_thirteen_cards_each() {
    let mut ctx = server(8);
    let players = table(&mut ctx);
    let mut all: Vec<Card> = Vec::new();
    for (seat, &id) in players.iter().enumerate() {
        let session = ctx.session(id).unwrap();
        assert_eq!(session.state, SessionState::Playing);
        assert_eq!(session.seat, seat);
        assert_eq!(session.game, Some(0));
        assert_eq!(session.hand.len(), 13);
        all.extend_from_slice(&session.hand);
    }
    for i in 0..all.len() {
        for j in i + 1..all.len() {
            assert_ne!(all[i], all[j]);
        }
    }
    let game = ctx.game(0).unwrap();
    assert_eq!(game.state, GameState::Playing);
    assert_eq!(game.players, players);
    assert_eq!(game.turn, 0);
    assert_eq!(game.tricks_left, 13);
    let stats = ctx.stats();
    assert_eq!(stats.games_started, 1);
    assert_eq!(stats.running_games, 1);
    assert_eq!(stats.current_connected, 4);
}

#[test]
fn the_leader_is_prompted_with_the_hand() {
    let mut ctx = server(8);
    let names = ["ann", "bob", "cy", "dee"];
    let mut players = Vec::new();
    for name in names {
        let id = connect(&mut ctx, name);
        ctx.handle_line(id, "JOIN G");
        players.push(id);
    }
    for &id in &players[..3] {
        ctx.handle_line(id, "READY");
    }
    let out = ctx.handle_line(players[3], "READY");
    let dealt = hand(&ctx, players[0]);
    let tokens: Vec<String> = dealt.iter().map(|&c| token(c)).collect();
    assert_eq!(
        texts(&out),
        vec![(players[0], format!("YOUR TURN\n{}\n", tokens.join(" ")))]
    );
}

#[test]
fn first_play_fixes_the_suit_and_others_follow_or_get_an_error() {
    let mut ctx = server(8);
    let players = table(&mut ctx);
    let led = hand(&ctx, players[0])[0];

    // Out of turn: seat 2 tries before seat 0 has led.
    let early = hand(&ctx, players[2])[0];
    let out = ctx.handle_command(players[2], Command::Play(early));
    assert_eq!(texts(&out), vec![(players[2], String::from("ERROR\nnot your turn\n"))]);
    assert_eq!(hand(&ctx, players[2]).len(), 13);

    let out = ctx.handle_line(players[0], &format!("PLAY {}\n", token(led)));
    let mut expected: Vec<(usize, String)> = players
        .iter()
        .map(|&p| (p, format!("PLAY\nann {}\n", token(led))))
        .collect();
    let next: Vec<String> = hand(&ctx, players[1]).iter().map(|&c| token(c)).collect();
    expected.push((players[1], format!("YOUR TURN\n{}\n", next.join(" "))));
    assert_eq!(texts(&out), expected);
    assert_eq!(ctx.game(0).unwrap().suit, Some(led.suit));
    assert_eq!(ctx.game(0).unwrap().leader, 0);
    assert_eq!(hand(&ctx, players[0]).len(), 12);
    assert!(!hand(&ctx, players[0]).contains(&led));

    // Seat 1 offers a card that it does not hold: the one that was just played.
    let out = ctx.handle_command(players[1], Command::Play(led));
    assert_eq!(texts(&out), vec![(players[1], String::from("ERROR\ncard not in hand\n"))]);
    assert_eq!(hand(&ctx, players[1]).len(), 13);
    assert_eq!(ctx.game(0).unwrap().turn, 1);

    // Then it follows with a card from its hand.
    let follow = hand(&ctx, players[1])[5];
    let out = ctx.handle_command(players[1], Command::Play(follow));
    assert_eq!(out.len(), 5);
    assert_eq!(ctx.game(0).unwrap().suit, Some(led.suit));
    assert_eq!(ctx.game(0).unwrap().turn, 2);
}

#[test]
fn a_whole_game_is_played_to_the_end() {
    let mut ctx = server(4);
    let players = table(&mut ctx);
    let mut tricks = 0;
    let mut finished = false;
    for _ in 0..52 {
        let game = ctx.game(0).unwrap();
        assert_eq!(game.state, GameState::Playing);
        let seat = game.turn;
        let id = players[seat];
        let played = hand(&ctx, id)[0];
        let out = ctx.handle_command(id, Command::Play(played));
        let game = ctx.game(0).unwrap();
        let kinds: Vec<&Message> = out.iter().map(|o| &o.message).collect();
        assert!(matches!(kinds[0], Message::Play { .. }));
        if kinds.len() > 5 {
            tricks += 1;
            assert!(matches!(kinds[4], Message::TrickWinner { .. }));
            assert_eq!(game.team_one + game.team_two, tricks);
            assert_eq!(ctx.stats().total_tricks, tricks);
        }
        if let Message::GameWinner { team, team_one, team_two } = kinds[kinds.len() - 1] {
            assert_eq!(out.len(), 12);
            assert_eq!(team_one + team_two, 13);
            assert_eq!(*team == rats::game::Team::One, team_one > team_two);
            finished = true;
        }
    }
    assert!(finished);
    assert_eq!(tricks, 13);
    assert_eq!(ctx.game(0).unwrap().state, GameState::Completed);
    for &id in &players {
        assert!(hand(&ctx, id).is_empty());
        assert_eq!(ctx.session(id).unwrap().state, SessionState::Completed);
    }
    let stats = ctx.stats();
    assert_eq!(stats.games_completed, 1);
    assert_eq!(stats.games_terminated, 0);
    assert_eq!(stats.running_games, 0);
    assert_eq!(stats.total_tricks, 13);

    let out = ctx.handle_line(players[0], "PLAY 2H");
    assert_eq!(texts(&out), vec![(players[0], String::from("ERROR\ncommand not allowed now\n"))]);
}

#[test]
fn connections_beyond_the_limit_are_turned_away() {
    let mut ctx = server(2);
    let a = connect(&mut ctx, "a");
    let b = connect(&mut ctx, "b");
    assert_eq!((a, b), (0, 1));
    assert!(ctx.connect("c").is_none());
    assert_eq!(ctx.session_count(), 2);
    assert_eq!(ctx.stats().current_connected, 2);
    assert_eq!(ctx.stats().total_connected, 2);
    assert_eq!(ctx.stats().max_connections, 2);

    let out = ctx.disconnect(a);
    assert!(out.is_empty());
    assert_eq!(ctx.stats().current_connected, 1);
    let c = connect(&mut ctx, "c");
    assert_eq!(c, 2);
    assert!(ctx.connect("d").is_none());
    assert_eq!(ctx.stats().total_connected, 3);
    assert_eq!(ctx.stats().current_connected, 2);
}

#[test]
fn a_session_is_released_only_once() {
    let mut ctx = server(1);
    let a = connect(&mut ctx, "a");
    let out = ctx.handle_line(a, "EXIT");
    assert_eq!(texts(&out), vec![(a, String::from("GOODBYE\n"))]);
    assert!(ctx.disconnect(a).is_empty());
    assert!(ctx.handle_line(a, "EXIT").is_empty());
    assert_eq!(ctx.stats().current_connected, 0);
    let b = connect(&mut ctx, "b");
    assert!(ctx.connect("c").is_none());
    assert!(ctx.disconnect(99).is_empty());
    assert!(ctx.handle_line(99, "READY").is_empty());
    assert_eq!(ctx.session(b).unwrap().state, SessionState::Idle);
}

#[test]
fn a_disconnect_during_play_ends_the_game_for_everybody() {
    let mut ctx = server(8);
    let players = table(&mut ctx);
    let led = hand(&ctx, players[0])[0];
    ctx.handle_command(players[0], Command::Play(led));

    let out = ctx.disconnect(players[2]);
    assert_eq!(
        texts(&out),
        vec![
            (players[0], String::from("DISCONNECT\n")),
            (players[1], String::from("DISCONNECT\n")),
            (players[3], String::from("DISCONNECT\n")),
        ]
    );
    let stats = ctx.stats();
    assert_eq!(stats.games_terminated, 1);
    assert_eq!(stats.games_completed, 0);
    assert_eq!(stats.running_games, 0);
    assert_eq!(stats.current_connected, 3);
    assert_eq!(ctx.game(0).unwrap().state, GameState::Completed);
    for &id in &players {
        assert_eq!(ctx.session(id).unwrap().state, SessionState::Completed);
    }
    assert!(!ctx.session(players[2]).unwrap().connected);
    assert!(ctx.session(players[0]).unwrap().connected);

    // Nothing is counted twice when the others leave afterwards.
    let out = ctx.handle_line(players[0], "EXIT");
    assert_eq!(texts(&out), vec![(players[0], String::from("GOODBYE\n"))]);
    assert!(ctx.disconnect(players[2]).is_empty());
    assert_eq!(ctx.stats().games_terminated, 1);
}

#[test]
fn exit_during_play_says_goodbye_and_notifies_the_table() {
    let mut ctx = server(8);
    let players = table(&mut ctx);
    let out = ctx.handle_line(players[0], "EXIT\n");
    assert_eq!(
        texts(&out),
        vec![
            (players[0], String::from("GOODBYE\n")),
            (players[1], String::from("DISCONNECT\n")),
            (players[2], String::from("DISCONNECT\n")),
            (players[3], String::from("DISCONNECT\n")),
        ]
    );
    assert_eq!(ctx.stats().games_terminated, 1);
}

#[test]
fn leaving_a_waiting_game_dissolves_it_without_counting() {
    let mut ctx = server(8);
    let a = connect(&mut ctx, "a");
    let b = connect(&mut ctx, "b");
    ctx.handle_line(a, "JOIN G");
    ctx.handle_line(b, "JOIN G");
    ctx.handle_line(b, "READY");
    let out = ctx.disconnect(a);
    assert_eq!(texts(&out), vec![(b, String::from("DISCONNECT\n"))]);
    assert_eq!(ctx.stats().games_terminated, 0);
    assert_eq!(ctx.stats().games_started, 0);
    assert_eq!(ctx.game(0).unwrap().state, GameState::Completed);
    assert_eq!(ctx.session(b).unwrap().state, SessionState::Completed);

    // The name is free again: a new game of that name is opened.
    let c = connect(&mut ctx, "c");
    let out = ctx.handle_line(c, "JOIN G");
    assert_eq!(texts(&out), vec![(c, String::from("JOINED\n"))]);
    assert_eq!(ctx.game_count(), 2);
    assert_eq!(ctx.session(c).unwrap().game, Some(1));
    assert_eq!(ctx.session(c).unwrap().seat, 0);
}

#[test]
fn join_is_checked() {
    let mut ctx = server(8);
    let a = connect(&mut ctx, "a");
    let out = ctx.handle_line(a, "JOIN ");
    assert_eq!(texts(&out), vec![(a, String::from("ERROR\ngame name must not be empty\n"))]);
    assert_eq!(ctx.session(a).unwrap().state, SessionState::Idle);
    assert_eq!(ctx.game_count(), 0);

    ctx.handle_line(a, "JOIN G");
    assert_eq!(ctx.session(a).unwrap().state, SessionState::Waiting);
    let out = ctx.handle_line(a, "JOIN H");
    assert_eq!(texts(&out), vec![(a, String::from("ERROR\ncommand not allowed now\n"))]);
    assert_eq!(ctx.game_count(), 1);

    let out = ctx.handle_line(a, "HELLO");
    assert_eq!(texts(&out), vec![(a, String::from("ERROR\nunknown command\n"))]);
    let out = ctx.handle_command(a, Command::Malformed);
    assert!(matches!(out[0].message, Message::Error(ErrorReason::UnknownCommand)));
}

#[test]
fn a_full_or_started_game_takes_nobody() {
    let mut ctx = server(8);
    let _players = table(&mut ctx);
    let late = connect(&mut ctx, "late");
    let out = ctx.handle_line(late, "JOIN G");
    assert_eq!(texts(&out), vec![(late, String::from("ERROR\ngame not available\n"))]);
    assert_eq!(ctx.session(late).unwrap().state, SessionState::Idle);

    let out = ctx.handle_line(late, "JOIN other");
    assert_eq!(texts(&out), vec![(late, String::from("JOINED\n"))]);
    assert_eq!(ctx.session(late).unwrap().game, Some(1));
}

#[test]
fn ready_and_play_need_the_right_state() {
    let mut ctx = server(8);
    let a = connect(&mut ctx, "a");
    let out = ctx.handle_line(a, "READY");
    assert_eq!(texts(&out), vec![(a, String::from("ERROR\ncommand not allowed now\n"))]);
    let out = ctx.handle_line(a, "PLAY 2H");
    assert_eq!(texts(&out), vec![(a, String::from("ERROR\ncommand not allowed now\n"))]);
    ctx.handle_line(a, "JOIN G");
    assert!(ctx.handle_line(a, "READY").is_empty());
    let out = ctx.handle_line(a, "READY");
    assert_eq!(texts(&out), vec![(a, String::from("ERROR\ncommand not allowed now\n"))]);
    assert_eq!(ctx.game(0).unwrap().ready_count, 1);
}

#[test]
fn games_of_different_names_are_separate() {
    let mut ctx = server(16);
    let mut first = Vec::new();
    let mut second = Vec::new();
    for k in 0..4 {
        let a = connect(&mut ctx, &format!("a{}", k));
        let b = connect(&mut ctx, &format!("b{}", k));
        ctx.handle_line(a, "JOIN one");
        ctx.handle_line(b, "JOIN two");
        first.push(a);
        second.push(b);
    }
    for k in 0..4 {
        ctx.handle_line(first[k], "READY");
        ctx.handle_line(second[k], "READY");
    }
    assert_eq!(ctx.stats().games_started, 2);
    assert_eq!(ctx.game(0).unwrap().players, first);
    assert_eq!(ctx.game(1).unwrap().players, second);
    // The two deals come from the same source one after the other and differ.
    assert_ne!(hand(&ctx, first[0]), hand(&ctx, second[0]));
    ctx.disconnect(first[1]);
    assert_eq!(ctx.game(1).unwrap().state, GameState::Playing);
    assert_eq!(ctx.session(second[1]).unwrap().state, SessionState::Playing);
    assert_eq!(ctx.stats().running_games, 1);
}

#[test]
fn the_same_seed_deals_the_same_hands() {
    let mut one = server(4);
    let mut two = server(4);
    let p = table(&mut one);
    let q = table(&mut two);
    for k in 0..4 {
        assert_eq!(hand(&one, p[k]), hand(&two, q[k]));
    }
    let mut other = ServerContext::new(4, String::from("welcome to the table"), 12);
    let r = table(&mut other);
    assert_ne!(hand(&one, p[0]), hand(&other, r[0]));
}

#[test]
fn copies_keep_what_they_copy() {
    let hand = vec![
        Card { rank: 2, suit: rats::card::Suit::Hearts },
        Card { rank: 14, suit: rats::card::Suit::Clubs },
    ];
    assert_eq!(rats::context::copy_hand(&hand), hand);
    assert!(rats::context::copy_hand(&Vec::new()).is_empty());
    let messages = vec![
        Message::Welcome(String::from("hi")),
        Message::Joined,
        Message::Error(ErrorReason::GameUnavailable),
        Message::YourTurn(hand.clone()),
        Message::Play { player: String::from("ann"), card: hand[0] },
        Message::TrickWinner { player: String::from("bob"), team_one: 1, team_two: 2 },
        Message::GameWinner { team: rats::game::Team::One, team_one: 7, team_two: 6 },
        Message::Disconnect,
        Message::Goodbye,
    ];
    for message in &messages {
        assert_eq!(render(&rats::context::copy_message(message)), render(message));
    }
}
