//! The terminal client: checks on its arguments and on what the operator
//! types, the rendering of a hand by suit, and the client's side of the
//! conversation with the server.

use crate::card::{
    decode, encode, parse_card, parse_card_spec, rank_token, rank_value, Card, Suit,
};
use crate::protocol::{hand_of_text, parse_hand, trim_line, trimmed, Command, CommandView};
use crate::text::same_text;
use vstd::prelude::*;
use vstd::string::*;

verus! {

/// The highest number that stands for a heart.
pub const HEARTS_MAX: i32 = 14;

/// The highest number that stands for a diamond.
pub const DIAMONDS_MAX: i32 = 28;

/// The highest number that stands for a club.
pub const CLUBS_MAX: i32 = 42;

/// The highest number that stands for a spade.
pub const SPADES_MAX: i32 = 56;

/// Why the client ends.
#[derive(Clone, Copy, Debug, PartialEq, Eq, Structural)]
pub enum ExitCode {
    /// The number of arguments is wrong.
    ArgumentError,
    /// An argument is empty.
    InvalidArgument,
    /// The server cannot be reached.
    ConnectionFailed,
    /// The server closed the connection while it was still needed.
    UnexpectedEof,
    /// The server sent what the protocol does not allow, or the connection broke.
    CommunicationError,
}

/// The number of an exit status.
pub open spec fn exit_status(code: ExitCode) -> int {
    match code {
        ExitCode::ArgumentError => 1,
        ExitCode::InvalidArgument => 3,
        ExitCode::ConnectionFailed => 8,
        ExitCode::UnexpectedEof => 13,
        ExitCode::CommunicationError => 15,
    }
}

impl ExitCode {
    /// The number that the process exits with.
    pub fn code(self) -> (n: i32)
        ensures
            n == exit_status(self),
    {
        match self {
            ExitCode::ArgumentError => 1,
            ExitCode::InvalidArgument => 3,
            ExitCode::ConnectionFailed => 8,
            ExitCode::UnexpectedEof => 13,
            ExitCode::CommunicationError => 15,
        }
    }
}

/// Whether every argument after the first holds at least one character.
pub open spec fn arguments_filled(args: Seq<String>) -> bool {
    forall|i: int| 1 <= i < args.len() ==> (#[trigger] args[i])@.len() > 0
}

/// Whether no argument after the program's name is empty.
pub fn check_arguments(args: &Vec<String>) -> (ok: bool)
    ensures
        ok == arguments_filled(args@),
{
    let mut i: usize = 1;
    while i < args.len()
        invariant
            1 <= i,
            forall|k: int| 1 <= k < i && k < args@.len() ==> (#[trigger] args@[k])@.len() > 0,
        decreases args@.len() - i,
    {
        if args[i].as_str().unicode_len() == 0 {
            return false;
        }
        i += 1;
    }
    true
}

/// The strength that the operator's input names: the input is the suit
/// that is asked for, which is an ASCII character, followed by a rank token.
pub open spec fn input_value(input: Seq<char>, suit: char) -> Option<i32> {
    if input.len() == 2 && input[0] == suit && (suit as u32) < 128 && rank_value(input[1]) != 0 {
        Some(rank_value(input[1]) as i32)
    } else {
        None
    }
}

/// Reads what the operator typed when asked for a card of `suit`, and
/// returns the strength of the card.
pub fn check_input_validation(input: &str, suit: char) -> (value: Option<i32>)
    ensures
        value == input_value(input@, suit),
{
    if input.unicode_len() != 2 || input.get_char(0) != suit || suit > '\x7f' {
        return None;
    }
    let num: i32 = encode(input.get_char(1));
    if num == 0 {
        None
    } else {
        Some(num)
    }
}

/// The suits in the order in which a hand is shown.
#[derive(Clone, Copy, Debug, PartialEq, Eq, Structural)]
pub enum Row {
    Spades,
    Clubs,
    Diamonds,
    Hearts,
}

/// The number below the lowest card of a row.
pub open spec fn row_base(row: Row) -> int {
    match row {
        Row::Spades => CLUBS_MAX as int,
        Row::Clubs => DIAMONDS_MAX as int,
        Row::Diamonds => HEARTS_MAX as int,
        Row::Hearts => 0,
    }
}

/// Whether a card number belongs to a row. Every number up to 14 counts as
/// a heart and every number above 42 as a spade.
pub open spec fn in_row(card: i32, row: Row) -> bool {
    match row {
        Row::Spades => card > CLUBS_MAX,
        Row::Clubs => DIAMONDS_MAX < card <= CLUBS_MAX,
        Row::Diamonds => HEARTS_MAX < card <= DIAMONDS_MAX,
        Row::Hearts => card <= HEARTS_MAX,
    }
}

/// The letter that opens a row.
pub open spec fn row_letter(row: Row) -> char {
    match row {
        Row::Spades => 'S',
        Row::Clubs => 'C',
        Row::Diamonds => 'D',
        Row::Hearts => 'H',
    }
}

/// The cards of a row as they are shown: for each card of the row, in the
/// order of the hand, a space and the token of its rank.
pub open spec fn row_cards(cards: Seq<i32>, row: Row) -> Seq<char>
    decreases cards.len(),
{
    if cards.len() == 0 {
        Seq::empty()
    } else if in_row(cards.last(), row) {
        row_cards(cards.drop_last(), row) + seq![' ', rank_token(cards.last() - row_base(row))]
    } else {
        row_cards(cards.drop_last(), row)
    }
}

/// One row of a hand: the letter of the suit, a colon, and the cards.
pub open spec fn row_text(cards: Seq<i32>, row: Row) -> Seq<char> {
    seq![row_letter(row), ':'] + row_cards(cards, row)
}

/// The token of a strength, as a text.
fn token_str(value: i32) -> (text: &'static str)
    ensures
        text@ == seq![rank_token(value as int)],
{
    proof {
        reveal_strlit("2");
        reveal_strlit("3");
        reveal_strlit("4");
        reveal_strlit("5");
        reveal_strlit("6");
        reveal_strlit("7");
        reveal_strlit("8");
        reveal_strlit("9");
        reveal_strlit("T");
        reveal_strlit("J");
        reveal_strlit("Q");
        reveal_strlit("K");
        reveal_strlit("A");
        reveal_strlit(" ");
    }
    let token: char = decode(value);
    let text = if token == '2' {
        "2"
    } else if token == '3' {
        "3"
    } else if token == '4' {
        "4"
    } else if token == '5' {
        "5"
    } else if token == '6' {
        "6"
    } else if token == '7' {
        "7"
    } else if token == '8' {
        "8"
    } else if token == '9' {
        "9"
    } else if token == 'T' {
        "T"
    } else if token == 'J' {
        "J"
    } else if token == 'Q' {
        "Q"
    } else if token == 'K' {
        "K"
    } else if token == 'A' {
        "A"
    } else {
        " "
    };
    assert(text@ =~= seq![rank_token(value as int)]);
    text
}

/// Renders one row of a hand.
pub fn hand_row(cards: &Vec<i32>, row: Row) -> (line: String)
    ensures
        line@ == row_text(cards@, row),
{
    proof {
        reveal_strlit("S:");
        reveal_strlit("C:");
        reveal_strlit("D:");
        reveal_strlit("H:");
        reveal_strlit(" ");
    }
    let mut line = match row {
        Row::Spades => String::from_str("S:"),
        Row::Clubs => String::from_str("C:"),
        Row::Diamonds => String::from_str("D:"),
        Row::Hearts => String::from_str("H:"),
    };
    assert(line@ =~= seq![row_letter(row), ':'] + row_cards(cards@.take(0), row));
    let base: i32 = match row {
        Row::Spades => CLUBS_MAX,
        Row::Clubs => DIAMONDS_MAX,
        Row::Diamonds => HEARTS_MAX,
        Row::Hearts => 0,
    };
    let mut i: usize = 0;
    while i < cards.len()
        invariant
            i <= cards@.len(),
            base == row_base(row),
            " "@ == seq![' '],
            line@ == seq![row_letter(row), ':'] + row_cards(cards@.take(i as int), row),
        decreases cards@.len() - i,
    {
        let card: i32 = cards[i];
        let shown = match row {
            Row::Spades => card > CLUBS_MAX,
            Row::Clubs => DIAMONDS_MAX < card && card <= CLUBS_MAX,
            Row::Diamonds => HEARTS_MAX < card && card <= DIAMONDS_MAX,
            Row::Hearts => card <= HEARTS_MAX,
        };
        let ghost before = line@;
        assert(cards@.take(i + 1).drop_last() =~= cards@.take(i as int));
        if shown {
            line.append(" ");
            line.append(token_str(card - base));
            assert(line@ =~= before + seq![' ', rank_token(card - row_base(row))]);
        }
        i += 1;
        assert(line@ =~= seq![row_letter(row), ':'] + row_cards(cards@.take(i as int), row));
    }
    assert(cards@.take(cards@.len() as int) =~= cards@);
    line
}

/// Renders a hand: one row each for spades, clubs, diamonds and hearts.
pub fn hand_rows(cards: &Vec<i32>) -> (lines: Vec<String>)
    ensures
        lines@.len() == 4,
        lines@[0]@ == row_text(cards@, Row::Spades),
        lines@[1]@ == row_text(cards@, Row::Clubs),
        lines@[2]@ == row_text(cards@, Row::Diamonds),
        lines@[3]@ == row_text(cards@, Row::Hearts),
{
    let mut lines: Vec<String> = Vec::new();
    lines.push(hand_row(cards, Row::Spades));
    lines.push(hand_row(cards, Row::Clubs));
    lines.push(hand_row(cards, Row::Diamonds));
    lines.push(hand_row(cards, Row::Hearts));
    lines
}

/// The number that stands for a card in a hand that is shown: hearts are
/// 2 to 14, diamonds 16 to 28, clubs 30 to 42 and spades 44 to 56.
pub open spec fn card_number(card: Card) -> i32 {
    (card.rank + match card.suit {
        Suit::Hearts => 0int,
        Suit::Diamonds => HEARTS_MAX as int,
        Suit::Clubs => DIAMONDS_MAX as int,
        Suit::Spades => CLUBS_MAX as int,
    }) as i32
}

/// The numbers that stand for the cards of a hand.
pub open spec fn card_numbers(hand: Seq<Card>) -> Seq<i32> {
    hand.map_values(|card: Card| card_number(card))
}

/// The numbers that stand for the cards of a hand.
pub fn hand_numbers(hand: &Vec<Card>) -> (numbers: Vec<i32>)
    ensures
        numbers@ == card_numbers(hand@),
{
    let mut numbers: Vec<i32> = Vec::new();
    let mut i: usize = 0;
    while i < hand.len()
        invariant
            i <= hand@.len(),
            numbers@.len() == i,
            forall|k: int| 0 <= k < i ==> numbers@[k] == card_number(hand@[k]),
        decreases hand@.len() - i,
    {
        let card: Card = hand[i];
        let base: i32 = match card.suit {
            Suit::Hearts => 0,
            Suit::Diamonds => HEARTS_MAX,
            Suit::Clubs => DIAMONDS_MAX,
            Suit::Spades => CLUBS_MAX,
        };
        numbers.push(card.rank as i32 + base);
        i += 1;
    }
    assert(numbers@ =~= card_numbers(hand@));
    numbers
}

/// A real card is shown in the row of its suit, and in no other.
pub proof fn lemma_card_in_its_row(card: Card)
    requires
        card.is_valid(),
    ensures
        in_row(card_number(card), Row::Hearts) == (card.suit == Suit::Hearts),
        in_row(card_number(card), Row::Diamonds) == (card.suit == Suit::Diamonds),
        in_row(card_number(card), Row::Clubs) == (card.suit == Suit::Clubs),
        in_row(card_number(card), Row::Spades) == (card.suit == Suit::Spades),
        forall|row: Row|
            in_row(card_number(card), row) ==> rank_token(card_number(card) - row_base(row))
                == rank_token(card.rank as int),
{
}

/// Which line of a message the client waits for.
#[derive(Clone, Copy, Debug, PartialEq, Eq, Structural)]
pub enum Expect {
    /// The first line of a message.
    Header,
    /// The greeting that follows `WELCOME`.
    Greeting,
    /// The reason that follows `ERROR`.
    Reason,
    /// The hand that follows `YOUR TURN`.
    Hand,
    /// The player and card that follow `PLAY`.
    Played,
    /// The winner and score that follow `TRICK WINNER`.
    Trick,
    /// The side and score that follow `GAME WINNER`.
    Outcome,
}

/// What the client is to do next.
#[derive(Debug)]
pub enum Action {
    /// Send a command to the server.
    Send(Command),
    /// Show a line to the operator.
    Show(String),
    /// Ask the operator for a card.
    Ask,
    /// End the process with a status.
    Quit(i32),
}

/// An action as plain values.
pub enum ActionView {
    Send(CommandView),
    Show(Seq<char>),
    Ask,
    Quit(i32),
}

impl View for Action {
    type V = ActionView;

    open spec fn view(&self) -> ActionView {
        match self {
            Action::Send(command) => ActionView::Send(command@),
            Action::Show(text) => ActionView::Show(text@),
            Action::Ask => ActionView::Ask,
            Action::Quit(status) => ActionView::Quit(*status),
        }
    }
}

/// The actions of a list as plain values.
pub open spec fn action_views(actions: Seq<Action>) -> Seq<ActionView> {
    actions.map_values(|a: Action| a@)
}

/// The client's side of a conversation as plain values.
pub struct AgentView {
    pub game: Seq<char>,
    pub expect: Expect,
    pub my_turn: bool,
    pub finished: bool,
}

/// What the client waits for after the first line of a message; nothing
/// where the line opens no message that has a second line.
pub open spec fn body_of(header: Seq<char>) -> Option<Expect> {
    if header == "WELCOME"@ {
        Some(Expect::Greeting)
    } else if header == "ERROR"@ {
        Some(Expect::Reason)
    } else if header == "YOUR TURN"@ {
        Some(Expect::Hand)
    } else if header == "PLAY"@ {
        Some(Expect::Played)
    } else if header == "TRICK WINNER"@ {
        Some(Expect::Trick)
    } else if header == "GAME WINNER"@ {
        Some(Expect::Outcome)
    } else {
        None
    }
}

impl AgentView {
    /// The client after a line from the server.
    pub open spec fn after_line(self, line: Seq<char>) -> AgentView {
        let text = trimmed(line);
        match self.expect {
            Expect::Header => match body_of(text) {
                Some(expect) => AgentView { expect, ..self },
                None => if text == "DISCONNECT"@ || text == "GOODBYE"@ {
                    AgentView { finished: true, ..self }
                } else {
                    self
                },
            },
            Expect::Hand => AgentView {
                expect: Expect::Header,
                my_turn: hand_of_text(text) is Some,
                ..self
            },
            Expect::Played => AgentView { expect: Expect::Header, my_turn: false, ..self },
            Expect::Outcome => AgentView { expect: Expect::Header, finished: true, ..self },
            _ => AgentView { expect: Expect::Header, ..self },
        }
    }

    /// What the client does on a line from the server. The second line of
    /// a message is shown; a hand is shown suit by suit. After the greeting
    /// the client joins its game; once joined it says that it is ready; with
    /// its hand, and after an error while it is its turn, it asks the
    /// operator for a card; when the game is over or a player left, it takes
    /// its leave; on the farewell it ends with status 0; on a line that
    /// opens no message, and on a hand that cannot be read, with the status
    /// of a communication error.
    pub open spec fn actions_on_line(self, line: Seq<char>) -> Seq<ActionView> {
        let text = trimmed(line);
        match self.expect {
            Expect::Header => if body_of(text) is Some {
                Seq::empty()
            } else if text == "JOINED"@ {
                seq![ActionView::Send(CommandView::Ready)]
            } else if text == "DISCONNECT"@ {
                seq![ActionView::Show(text), ActionView::Send(CommandView::Exit)]
            } else if text == "GOODBYE"@ {
                seq![ActionView::Quit(0)]
            } else {
                seq![ActionView::Quit(15)]
            },
            Expect::Greeting => seq![
                ActionView::Show(text),
                ActionView::Send(CommandView::Join(self.game)),
            ],
            Expect::Reason => if self.my_turn {
                seq![ActionView::Show(text), ActionView::Ask]
            } else {
                seq![ActionView::Show(text)]
            },
            Expect::Hand => match hand_of_text(text) {
                Some(hand) => seq![
                    ActionView::Show(row_text(card_numbers(hand), Row::Spades)),
                    ActionView::Show(row_text(card_numbers(hand), Row::Clubs)),
                    ActionView::Show(row_text(card_numbers(hand), Row::Diamonds)),
                    ActionView::Show(row_text(card_numbers(hand), Row::Hearts)),
                    ActionView::Ask,
                ],
                None => seq![ActionView::Quit(15)],
            },
            Expect::Outcome => seq![ActionView::Show(text), ActionView::Send(CommandView::Exit)],
            _ => seq![ActionView::Show(text)],
        }
    }
}

/// What the client does with what the operator typed: a card is played;
/// anything else is asked for again; at the end of the input the client
/// takes its leave.
pub open spec fn actions_on_input(input: Option<Seq<char>>) -> Seq<ActionView> {
    match input {
        None => seq![ActionView::Send(CommandView::Exit)],
        Some(typed) => match parse_card_spec(trimmed(typed)) {
            Some(card) => seq![ActionView::Send(CommandView::Play(card))],
            None => seq![ActionView::Show("invalid card"@), ActionView::Ask],
        },
    }
}

/// The status with which the client ends when the server closes the
/// connection: 0 after the conversation came to its end, else the status
/// of an unexpected end.
pub open spec fn status_on_close(finished: bool) -> int {
    if finished {
        0
    } else {
        exit_status(ExitCode::UnexpectedEof)
    }
}

/// The client's side of a conversation with the server.
#[derive(Debug)]
pub struct Agent {
    pub game: String,
    pub expect: Expect,
    pub my_turn: bool,
    pub finished: bool,
}

impl View for Agent {
    type V = AgentView;

    open spec fn view(&self) -> AgentView {
        AgentView {
            game: self.game@,
            expect: self.expect,
            my_turn: self.my_turn,
            finished: self.finished,
        }
    }
}

/// What the client waits for after the first line of a message.
fn header_kind(text: &str) -> (kind: Option<Expect>)
    ensures
        kind == body_of(text@),
{
    if same_text(text, "WELCOME") {
        Some(Expect::Greeting)
    } else if same_text(text, "ERROR") {
        Some(Expect::Reason)
    } else if same_text(text, "YOUR TURN") {
        Some(Expect::Hand)
    } else if same_text(text, "PLAY") {
        Some(Expect::Played)
    } else if same_text(text, "TRICK WINNER") {
        Some(Expect::Trick)
    } else if same_text(text, "GAME WINNER") {
        Some(Expect::Outcome)
    } else {
        None
    }
}

impl Agent {
    /// A client that wants to play in `game` and waits for the server's
    /// first message.
    pub fn new(game: String) -> (agent: Agent)
        ensures
            agent@ == (AgentView {
                game: game@,
                expect: Expect::Header,
                my_turn: false,
                finished: false,
            }),
    {
        Agent { game, expect: Expect::Header, my_turn: false, finished: false }
    }

    /// Takes a line from the server and says what to do.
    pub fn on_line(&mut self, line: &str) -> (actions: Vec<Action>)
        ensures
            final(self)@ == old(self)@.after_line(line@),
            action_views(actions@) == old(self)@.actions_on_line(line@),
    {
        let text = trim_line(line);
        let mut actions: Vec<Action> = Vec::new();
        proof {
            reveal_strlit("JOINED");
            reveal_strlit("DISCONNECT");
            reveal_strlit("GOODBYE");
            assert("JOINED"@.len() == 6 && "DISCONNECT"@.len() == 10 && "GOODBYE"@.len() == 7);
        }
        match self.expect {
            Expect::Header => {
                match header_kind(text) {
                    Some(expect) => {
                        self.expect = expect;
                    },
                    None => {
                        if same_text(text, "JOINED") {
                            actions.push(Action::Send(Command::Ready));
                        } else if same_text(text, "DISCONNECT") {
                            self.finished = true;
                            actions.push(Action::Show(String::from_str(text)));
                            actions.push(Action::Send(Command::Exit));
                        } else if same_text(text, "GOODBYE") {
                            self.finished = true;
                            actions.push(Action::Quit(0));
                        } else {
                            actions.push(Action::Quit(15));
                        }
                    },
                }
            },
            Expect::Greeting => {
                self.expect = Expect::Header;
                actions.push(Action::Show(String::from_str(text)));
                actions.push(Action::Send(Command::Join(self.game.clone())));
            },
            Expect::Reason => {
                self.expect = Expect::Header;
                actions.push(Action::Show(String::from_str(text)));
                if self.my_turn {
                    actions.push(Action::Ask);
                }
            },
            Expect::Hand => {
                self.expect = Expect::Header;
                match parse_hand(text) {
                    Some(hand) => {
                        self.my_turn = true;
                        let numbers = hand_numbers(&hand);
                        actions.push(Action::Show(hand_row(&numbers, Row::Spades)));
                        actions.push(Action::Show(hand_row(&numbers, Row::Clubs)));
                        actions.push(Action::Show(hand_row(&numbers, Row::Diamonds)));
                        actions.push(Action::Show(hand_row(&numbers, Row::Hearts)));
                        actions.push(Action::Ask);
                    },
                    None => {
                        self.my_turn = false;
                        actions.push(Action::Quit(15));
                    },
                }
            },
            Expect::Played => {
                self.expect = Expect::Header;
                self.my_turn = false;
                actions.push(Action::Show(String::from_str(text)));
            },
            Expect::Trick => {
                self.expect = Expect::Header;
                actions.push(Action::Show(String::from_str(text)));
            },
            Expect::Outcome => {
                self.expect = Expect::Header;
                self.finished = true;
                actions.push(Action::Show(String::from_str(text)));
                actions.push(Action::Send(Command::Exit));
            },
        }
        assert(action_views(actions@) =~= old(self)@.actions_on_line(line@));
        actions
    }

    /// Takes what the operator typed, or the end of the input, and says
    /// what to do.
    pub fn on_input(&self, input: Option<&str>) -> (actions: Vec<Action>)
        ensures
            action_views(actions@) == actions_on_input(
                match input {
                    Some(typed) => Some(typed@),
                    None => None,
                },
            ),
    {
        let mut actions: Vec<Action> = Vec::new();
        match input {
            None => {
                actions.push(Action::Send(Command::Exit));
            },
            Some(typed) => {
                match parse_card(trim_line(typed)) {
                    Some(card) => {
                        actions.push(Action::Send(Command::Play(card)));
                    },
                    None => {
                        actions.push(Action::Show(String::from_str("invalid card")));
                        actions.push(Action::Ask);
                    },
                }
            },
        }
        assert(action_views(actions@) =~= actions_on_input(
            match input {
                Some(typed) => Some(typed@),
                None => None,
            },
        ));
        actions
    }

    /// The status with which the client ends when the server closes the
    /// connection.
    pub fn on_close(&self) -> (status: i32)
        ensures
            status == status_on_close(self@.finished),
    {
        if self.finished {
            0
        } else {
            ExitCode::UnexpectedEof.code()
        }
    }
}

} // verus!
