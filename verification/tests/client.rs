use rats::client::{
    check_arguments, check_input_validation, hand_row, hand_rows, ExitCode, Row,
};

#[test]
fn test_arguments() {
    let args = vec![
        String::from("player1"),
        String::from("game1"),
        String::from("8080"),
    ];
    assert!(check_arguments(&args));

    let args_with_empty = vec![
        String::from("player1"),
        String::from(""),
        String::from("8080"),
    ];
    assert!(!check_arguments(&args_with_empty));
}

#[test]
fn first_argument_is_not_checked() {
    let args = vec![String::from(""), String::from("a")];
    assert!(check_arguments(&args));
    let none: Vec<String> = Vec::new();
    assert!(check_arguments(&none));
    let last_empty = vec![String::from("x"), String::from("a"), String::from("")];
    assert!(!check_arguments(&last_empty));
}

#[test]
fn input_names_suit_then_rank() {
    assert_eq!(check_input_validation("HA", 'H'), Some(14));
    assert_eq!(check_input_validation("H2", 'H'), Some(2));
    assert_eq!(check_input_validation("ST", 'S'), Some(10));
    assert_eq!(check_input_validation("DK", 'D'), Some(13));
}

#[test]
fn input_of_another_suit_or_shape_is_rejected() {
    assert_eq!(check_input_validation("HA", 'S'), None);
    assert_eq!(check_input_validation("H", 'H'), None);
    assert_eq!(check_input_validation("HAA", 'H'), None);
    assert_eq!(check_input_validation("H1", 'H'), None);
    assert_eq!(check_input_validation("", 'H'), None);
    assert_eq!(check_input_validation("éA", 'é'), None);
}

#[test]
fn hand_is_shown_by_suit() {
    let cards = vec![14, 2, 15 + 14 - 1, 29 + 1, 43 + 12, 56, 13];
    let rows = hand_rows(&cards);
    assert_eq!(rows.len(), 4);
    assert_eq!(rows[0], "S: K A");
    assert_eq!(rows[1], "C: 2");
    assert_eq!(rows[2], "D: A");
    assert_eq!(rows[3], "H: A 2 K");
}

#[test]
fn empty_hand_shows_bare_rows() {
    let cards: Vec<i32> = Vec::new();
    assert_eq!(hand_row(&cards, Row::Spades), "S:");
    assert_eq!(hand_row(&cards, Row::Clubs), "C:");
    assert_eq!(hand_row(&cards, Row::Diamonds), "D:");
    assert_eq!(hand_row(&cards, Row::Hearts), "H:");
}

#[test]
fn numbers_without_a_rank_show_as_blank() {
    let cards = vec![1, 0, -5, 15];
    assert_eq!(hand_row(&cards, Row::Hearts), "H:      ");
    assert_eq!(hand_row(&cards, Row::Diamonds), "D:  ");
}

#[test]
fn client_exit_codes_have_their_numbers() {
    assert_eq!(ExitCode::ArgumentError.code(), 1);
    assert_eq!(ExitCode::InvalidArgument.code(), 3);
    assert_eq!(ExitCode::ConnectionFailed.code(), 8);
    assert_eq!(ExitCode::UnexpectedEof.code(), 13);
    assert_eq!(ExitCode::CommunicationError.code(), 15);
}
