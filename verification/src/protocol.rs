//! The line protocol: the commands a client sends, the messages the
//! server sends, and their text on the wire.

use crate::card::{parse_card, parse_card_spec, rank_token, suit_token, Card, Suit};
use crate::game::Team;
use crate::text::{same_text, starts_with};
use vstd::prelude::*;
use vstd::string::*;

verus! {

/// A command as plain values.
pub enum CommandView {
    Join(Seq<char>),
    Ready,
    Play(Card),
    Exit,
    Malformed,
}

/// A command read from one line.
#[derive(Debug)]
pub enum Command {
    /// `JOIN <game-name>`; the name may be empty.
    Join(String),
    /// `READY`
    Ready,
    /// `PLAY <rank><suit>`
    Play(Card),
    /// `EXIT`
    Exit,
    /// Anything else.
    Malformed,
}

impl View for Command {
    type V = CommandView;

    open spec fn view(&self) -> CommandView {
        match self {
            Command::Join(name) => CommandView::Join(name@),
            Command::Ready => CommandView::Ready,
            Command::Play(card) => CommandView::Play(*card),
            Command::Exit => CommandView::Exit,
            Command::Malformed => CommandView::Malformed,
        }
    }
}

/// The line without its end: one line feed, and one carriage return before it.
pub open spec fn trimmed(line: Seq<char>) -> Seq<char> {
    let cut = if line.len() > 0 && line.last() == '\n' {
        line.drop_last()
    } else {
        line
    };
    if cut.len() > 0 && cut.last() == '\r' {
        cut.drop_last()
    } else {
        cut
    }
}

/// The command that a line stands for.
pub open spec fn command_of(line: Seq<char>) -> CommandView {
    let text = trimmed(line);
    if text == "READY"@ {
        CommandView::Ready
    } else if text == "EXIT"@ {
        CommandView::Exit
    } else if text == "JOIN"@ {
        CommandView::Join(Seq::empty())
    } else if "JOIN "@.is_prefix_of(text) {
        CommandView::Join(text.subrange(5, text.len() as int))
    } else if "PLAY "@.is_prefix_of(text) {
        match parse_card_spec(text.subrange(5, text.len() as int)) {
            Some(card) => CommandView::Play(card),
            None => CommandView::Malformed,
        }
    } else {
        CommandView::Malformed
    }
}

/// Reads one line from a client.
pub fn parse_command(line: &str) -> (command: Command)
    ensures
        command@ == command_of(line@),
{
    let text = trim_line(line);
    let len: usize = text.unicode_len();
    proof {
        reveal_strlit("JOIN ");
        reveal_strlit("PLAY ");
    }
    if same_text(text, "READY") {
        Command::Ready
    } else if same_text(text, "EXIT") {
        Command::Exit
    } else if same_text(text, "JOIN") {
        Command::Join(String::new())
    } else if starts_with(text, "JOIN ") {
        Command::Join(String::from_str(text.substring_char(5, len)))
    } else if starts_with(text, "PLAY ") {
        match parse_card(text.substring_char(5, len)) {
            Some(card) => Command::Play(card),
            None => Command::Malformed,
        }
    } else {
        Command::Malformed
    }
}

/// The line without its end.
pub fn trim_line(line: &str) -> (text: &str)
    ensures
        text@ == trimmed(line@),
{
    let mut len: usize = line.unicode_len();
    if len > 0 && line.get_char(len - 1) == '\n' {
        len -= 1;
    }
    if len > 0 && line.get_char(len - 1) == '\r' {
        len -= 1;
    }
    let text = line.substring_char(0, len);
    assert(text@ =~= trimmed(line@)) by {
        let cut = if line@.len() > 0 && line@.last() == '\n' {
            line@.drop_last()
        } else {
            line@
        };
        if cut.len() > 0 && cut.last() == '\r' {
            assert(cut.drop_last() =~= line@.subrange(0, len as int));
        } else {
            assert(cut =~= line@.subrange(0, len as int));
        }
    }
    text
}

/// The line that a client sends for a command; for no command, an empty line.
pub open spec fn command_text(command: CommandView) -> Seq<char> {
    match command {
        CommandView::Join(name) => "JOIN "@ + name + seq!['\n'],
        CommandView::Ready => "READY\n"@,
        CommandView::Play(card) => "PLAY "@ + card.token_spec() + seq!['\n'],
        CommandView::Exit => "EXIT\n"@,
        CommandView::Malformed => seq!['\n'],
    }
}

/// The line that a client sends for a command.
pub fn render_command(command: &Command) -> (text: String)
    ensures
        text@ == command_text(command@),
{
    proof {
        reveal_strlit("\n");
    }
    let mut text = String::new();
    match command {
        Command::Join(name) => {
            text.append("JOIN ");
            text.append(name.as_str());
            text.append("\n");
        },
        Command::Ready => {
            text.append("READY\n");
        },
        Command::Play(card) => {
            text.append("PLAY ");
            push_card(&mut text, *card);
            text.append("\n");
        },
        Command::Exit => {
            text.append("EXIT\n");
        },
        Command::Malformed => {
            text.append("\n");
        },
    }
    assert(text@ =~= command_text(command@));
    text
}

/// Whether a command survives the wire: the name of a game does not end in
/// a line end, and a card is a real card.
pub open spec fn sendable(command: CommandView) -> bool {
    match command {
        CommandView::Join(name) => name.len() == 0 || (name.last() != '\n' && name.last() != '\r'),
        CommandView::Play(card) => card.is_valid(),
        _ => true,
    }
}

/// A command that is written as a line and read back is the same command.
pub proof fn lemma_command_round_trip(command: CommandView)
    requires
        sendable(command),
    ensures
        command_of(command_text(command)) == command,
{
    reveal_strlit("READY");
    reveal_strlit("EXIT");
    reveal_strlit("JOIN");
    reveal_strlit("JOIN ");
    reveal_strlit("PLAY ");
    reveal_strlit("READY\n");
    reveal_strlit("EXIT\n");
    let line = command_text(command);
    match command {
        CommandView::Join(name) => {
            let text = "JOIN "@ + name;
            assert(line.drop_last() =~= text);
            assert(trimmed(line) =~= text);
            assert(text[0] == 'J');
            assert(text.subrange(5, text.len() as int) =~= name);
            assert("JOIN "@ =~= text.subrange(0, 5));
        },
        CommandView::Ready => {
            assert(trimmed(line) =~= "READY"@);
        },
        CommandView::Play(card) => {
            let text = "PLAY "@ + card.token_spec();
            assert(line.drop_last() =~= text);
            assert(trimmed(line) =~= text);
            assert(text[0] == 'P');
            assert(text.len() == 7);
            assert(text.subrange(5, text.len() as int) =~= card.token_spec());
            assert("PLAY "@ =~= text.subrange(0, 5));
            crate::card::lemma_parse_token(card);
        },
        CommandView::Exit => {
            assert(trimmed(line) =~= "EXIT"@);
        },
        CommandView::Malformed => {
            assert(trimmed(line) =~= Seq::<char>::empty());
        },
    }
}

/// Why the server turned a command down.
#[derive(Clone, Copy, Debug, PartialEq, Eq, Structural)]
pub enum ErrorReason {
    /// The line is no command.
    UnknownCommand,
    /// `JOIN` came without a game name.
    EmptyGameName,
    /// The command is not allowed in the state the session is in.
    WrongState,
    /// The game is full or already under way.
    GameUnavailable,
    /// It is another player's turn.
    NotYourTurn,
    /// The card is not in the player's hand.
    CardNotHeld,
}

/// The text that explains a reason.
pub open spec fn reason_text(reason: ErrorReason) -> Seq<char> {
    match reason {
        ErrorReason::UnknownCommand => "unknown command"@,
        ErrorReason::EmptyGameName => "game name must not be empty"@,
        ErrorReason::WrongState => "command not allowed now"@,
        ErrorReason::GameUnavailable => "game not available"@,
        ErrorReason::NotYourTurn => "not your turn"@,
        ErrorReason::CardNotHeld => "card not in hand"@,
    }
}

/// A message as plain values.
pub enum MessageView {
    Welcome(Seq<char>),
    Joined,
    Error(ErrorReason),
    YourTurn(Seq<Card>),
    Play { player: Seq<char>, card: Card },
    TrickWinner { player: Seq<char>, team_one: usize, team_two: usize },
    GameWinner { team: Team, team_one: usize, team_two: usize },
    Disconnect,
    Goodbye,
}

/// A message from the server to one client.
#[derive(Debug)]
pub enum Message {
    /// The greeting after a connection was admitted.
    Welcome(String),
    /// The answer to a `JOIN` that was accepted.
    Joined,
    /// The answer to a command that was turned down.
    Error(ErrorReason),
    /// The prompt to the player whose turn it is, with that player's hand.
    YourTurn(Vec<Card>),
    /// A card that a player laid on the table.
    Play { player: String, card: Card },
    /// The end of a trick: who took it, and the score.
    TrickWinner { player: String, team_one: usize, team_two: usize },
    /// The end of the game: the side that won, and the score.
    GameWinner { team: Team, team_one: usize, team_two: usize },
    /// A player left and the game is over.
    Disconnect,
    /// The answer to `EXIT`.
    Goodbye,
}

impl View for Message {
    type V = MessageView;

    open spec fn view(&self) -> MessageView {
        match self {
            Message::Welcome(text) => MessageView::Welcome(text@),
            Message::Joined => MessageView::Joined,
            Message::Error(reason) => MessageView::Error(*reason),
            Message::YourTurn(hand) => MessageView::YourTurn(hand@),
            Message::Play { player, card } => MessageView::Play { player: player@, card: *card },
            Message::TrickWinner { player, team_one, team_two } => MessageView::TrickWinner {
                player: player@,
                team_one: *team_one,
                team_two: *team_two,
            },
            Message::GameWinner { team, team_one, team_two } => MessageView::GameWinner {
                team: *team,
                team_one: *team_one,
                team_two: *team_two,
            },
            Message::Disconnect => MessageView::Disconnect,
            Message::Goodbye => MessageView::Goodbye,
        }
    }
}

/// The character of a digit.
pub open spec fn digit_char(d: int) -> char {
    if d == 0 {
        '0'
    } else if d == 1 {
        '1'
    } else if d == 2 {
        '2'
    } else if d == 3 {
        '3'
    } else if d == 4 {
        '4'
    } else if d == 5 {
        '5'
    } else if d == 6 {
        '6'
    } else if d == 7 {
        '7'
    } else if d == 8 {
        '8'
    } else {
        '9'
    }
}

/// A number in decimal, without leading zeros.
pub open spec fn decimal(n: nat) -> Seq<char>
    decreases n,
{
    if n < 10 {
        seq![digit_char(n as int)]
    } else {
        decimal(n / 10).push(digit_char((n % 10) as int))
    }
}

/// The tokens of the cards of a hand, separated by single spaces.
pub open spec fn hand_text(hand: Seq<Card>) -> Seq<char>
    decreases hand.len(),
{
    if hand.len() == 0 {
        Seq::empty()
    } else if hand.len() == 1 {
        hand[0].token_spec()
    } else {
        hand_text(hand.drop_last()) + seq![' '] + hand.last().token_spec()
    }
}

/// The cards that the text of a hand lists: tokens of two characters with
/// single spaces between them; no cards for an empty text.
pub open spec fn hand_of_text(text: Seq<char>) -> Option<Seq<Card>> {
    let count = (text.len() + 1) / 3;
    if text.len() == 0 {
        Some(Seq::empty())
    } else if (text.len() + 1) % 3 == 0 && forall|k: int|
        0 <= k < count ==> (#[trigger] parse_card_spec(text.subrange(3 * k, 3 * k + 2))) is Some
            && (k + 1 < count ==> text[3 * k + 2] == ' ') {
        Some(
            Seq::new(
                count as nat,
                |k: int| parse_card_spec(text.subrange(3 * k, 3 * k + 2))->Some_0,
            ),
        )
    } else {
        None
    }
}

/// Reads the text of a hand.
pub fn parse_hand(text: &str) -> (hand: Option<Vec<Card>>)
    ensures
        match hand_of_text(text@) {
            Some(cards) => hand is Some && hand->Some_0@ == cards,
            None => hand is None,
        },
{
    let n: usize = text.unicode_len();
    let mut hand: Vec<Card> = Vec::new();
    if n == 0 {
        assert(hand@ =~= Seq::<Card>::empty());
        return Some(hand);
    }
    if n % 3 != 2 {
        return None;
    }
    let count: usize = n / 3 + 1;
    let mut k: usize = 0;
    while k < count
        invariant
            k <= count,
            n == text@.len(),
            n % 3 == 2,
            count == (n + 1) / 3,
            hand@.len() == k,
            forall|j: int|
                0 <= j < k ==> (#[trigger] parse_card_spec(text@.subrange(3 * j, 3 * j + 2)))
                    == Some(hand@[j]) && (j + 1 < count ==> text@[3 * j + 2] == ' '),
        decreases count - k,
    {
        let token = text.substring_char(3 * k, 3 * k + 2);
        let card: Card = match parse_card(token) {
            Some(card) => card,
            None => {
                assert(parse_card_spec(text@.subrange(3 * k, 3 * k + 2)) is None);
                return None;
            },
        };
        if k + 1 < count && text.get_char(3 * k + 2) != ' ' {
            assert(parse_card_spec(text@.subrange(3 * k, 3 * k + 2)) is Some);
            return None;
        }
        hand.push(card);
        k += 1;
    }
    proof {
        let cards = hand_of_text(text@)->Some_0;
        assert(hand_of_text(text@) is Some);
        assert(hand@ =~= cards);
    }
    Some(hand)
}

/// The text of a hand of `n` cards has `3n - 1` characters, and its last
/// two are the token of the last card.
pub proof fn lemma_hand_text_shape(hand: Seq<Card>)
    requires
        hand.len() > 0,
    ensures
        hand_text(hand).len() == 3 * hand.len() - 1,
        forall|k: int|
            0 <= k < hand.len() ==> hand_text(hand).subrange(3 * k, 3 * k + 2)
                == (#[trigger] hand[k]).token_spec(),
        forall|k: int| 0 <= k < hand.len() - 1 ==> #[trigger] hand_text(hand)[3 * k + 2] == ' ',
    decreases hand.len(),
{
    let text = hand_text(hand);
    if hand.len() == 1 {
        assert(text.subrange(0, 2) =~= hand[0].token_spec());
    } else {
        let front = hand.drop_last();
        lemma_hand_text_shape(front);
        let before = hand_text(front);
        assert(text =~= before + seq![' '] + hand.last().token_spec());
        assert forall|k: int| 0 <= k < hand.len() implies text.subrange(3 * k, 3 * k + 2) == (
        #[trigger] hand[k]).token_spec() by {
            if k < hand.len() - 1 {
                assert(text.subrange(3 * k, 3 * k + 2) =~= before.subrange(3 * k, 3 * k + 2));
                assert(front[k] == hand[k]);
            } else {
                assert(text.subrange(3 * k, 3 * k + 2) =~= hand.last().token_spec());
            }
        }
        assert forall|k: int| 0 <= k < hand.len() - 1 implies #[trigger] text[3 * k + 2]
            == ' ' by {
            if k < hand.len() - 2 {
                assert(text[3 * k + 2] == before[3 * k + 2]);
            }
        }
    }
}

/// A hand of real cards that is written as text and read back is the same
/// hand.
pub proof fn lemma_hand_round_trip(hand: Seq<Card>)
    requires
        forall|k: int| 0 <= k < hand.len() ==> (#[trigger] hand[k]).is_valid(),
    ensures
        hand_of_text(hand_text(hand)) == Some(hand),
{
    let text = hand_text(hand);
    if hand.len() == 0 {
        assert(hand =~= Seq::<Card>::empty());
    } else {
        lemma_hand_text_shape(hand);
        let count = (text.len() + 1) / 3;
        assert(count == hand.len());
        assert forall|k: int| 0 <= k < count implies (#[trigger] parse_card_spec(
            text.subrange(3 * k, 3 * k + 2),
        )) == Some(hand[k]) && (k + 1 < count ==> text[3 * k + 2] == ' ') by {
            assert(hand[k].is_valid());
            crate::card::lemma_parse_token(hand[k]);
            assert(text.subrange(3 * k, 3 * k + 2) == hand[k].token_spec());
        }
        assert(hand_of_text(text)->Some_0 =~= hand);
    }
}

/// The score as `<team one>-<team two>`.
pub open spec fn score_text(team_one: usize, team_two: usize) -> Seq<char> {
    decimal(team_one as nat) + seq!['-'] + decimal(team_two as nat)
}

/// The name of a team on the wire.
pub open spec fn team_text(team: Team) -> Seq<char> {
    match team {
        Team::One => seq!['1'],
        Team::Two => seq!['2'],
    }
}

/// A message without the line feed that ends it.
pub open spec fn body_text(message: MessageView) -> Seq<char> {
    match message {
        MessageView::Welcome(text) => "WELCOME\n"@ + text,
        MessageView::Joined => "JOINED"@,
        MessageView::Error(reason) => "ERROR\n"@ + reason_text(reason),
        MessageView::YourTurn(hand) => "YOUR TURN\n"@ + hand_text(hand),
        MessageView::Play { player, card } => "PLAY\n"@ + player + seq![' '] + card.token_spec(),
        MessageView::TrickWinner { player, team_one, team_two } => "TRICK WINNER\n"@ + player
            + seq![' '] + score_text(team_one, team_two),
        MessageView::GameWinner { team, team_one, team_two } => "GAME WINNER\n"@ + team_text(team)
            + seq![' '] + score_text(team_one, team_two),
        MessageView::Disconnect => "DISCONNECT"@,
        MessageView::Goodbye => "GOODBYE"@,
    }
}

/// A message as it goes over the wire.
pub open spec fn wire_text(message: MessageView) -> Seq<char> {
    body_text(message) + seq!['\n']
}

/// The character of a digit, as a text.
fn digit_str(d: usize) -> (text: &'static str)
    requires
        d < 10,
    ensures
        text@ == seq![digit_char(d as int)],
{
    proof {
        reveal_strlit("0");
        reveal_strlit("1");
        reveal_strlit("2");
        reveal_strlit("3");
        reveal_strlit("4");
        reveal_strlit("5");
        reveal_strlit("6");
        reveal_strlit("7");
        reveal_strlit("8");
        reveal_strlit("9");
    }
    let text = if d == 0 {
        "0"
    } else if d == 1 {
        "1"
    } else if d == 2 {
        "2"
    } else if d == 3 {
        "3"
    } else if d == 4 {
        "4"
    } else if d == 5 {
        "5"
    } else if d == 6 {
        "6"
    } else if d == 7 {
        "7"
    } else if d == 8 {
        "8"
    } else {
        "9"
    };
    assert(text@ =~= seq![digit_char(d as int)]);
    text
}

/// Appends a number in decimal.
pub fn push_decimal(out: &mut String, n: usize)
    ensures
        final(out)@ == old(out)@ + decimal(n as nat),
    decreases n,
{
    if n >= 10 {
        push_decimal(out, n / 10);
    }
    out.append(digit_str(n % 10));
    proof {
        if n >= 10 {
            assert(final(out)@ =~= old(out)@ + decimal(n as nat));
        } else {
            assert(final(out)@ =~= old(out)@ + decimal(n as nat));
        }
    }
}

/// The token of a rank, as a text.
fn rank_str(rank: u8) -> (text: &'static str)
    ensures
        text@ == seq![rank_token(rank as int)],
{
    proof {
        reveal_strlit("2");
        reveal_strlit("3");
        reveal_strlit("4");
        reveal_strlit("5");
        reveal_strlit("6");
        reveal_strlit("7");
        reveal_strlit("8");
        reveal_strlit("9");
        reveal_strlit("T");
        reveal_strlit("J");
        reveal_strlit("Q");
        reveal_strlit("K");
        reveal_strlit("A");
        reveal_strlit(" ");
    }
    let text = if rank == 2 {
        "2"
    } else if rank == 3 {
        "3"
    } else if rank == 4 {
        "4"
    } else if rank == 5 {
        "5"
    } else if rank == 6 {
        "6"
    } else if rank == 7 {
        "7"
    } else if rank == 8 {
        "8"
    } else if rank == 9 {
        "9"
    } else if rank == 10 {
        "T"
    } else if rank == 11 {
        "J"
    } else if rank == 12 {
        "Q"
    } else if rank == 13 {
        "K"
    } else if rank == 14 {
        "A"
    } else {
        " "
    };
    assert(text@ =~= seq![rank_token(rank as int)]);
    text
}

/// The letter of a suit, as a text.
fn suit_str(suit: Suit) -> (text: &'static str)
    ensures
        text@ == seq![suit_token(suit)],
{
    proof {
        reveal_strlit("H");
        reveal_strlit("D");
        reveal_strlit("S");
        reveal_strlit("C");
    }
    let text = match suit {
        Suit::Hearts => "H",
        Suit::Diamonds => "D",
        Suit::Spades => "S",
        Suit::Clubs => "C",
    };
    assert(text@ =~= seq![suit_token(suit)]);
    text
}

/// Appends the token of a card.
pub fn push_card(out: &mut String, card: Card)
    ensures
        final(out)@ == old(out)@ + card.token_spec(),
{
    out.append(rank_str(card.rank));
    out.append(suit_str(card.suit));
    assert(final(out)@ =~= old(out)@ + card.token_spec());
}

/// Appends the cards of a hand, separated by single spaces.
pub fn push_hand(out: &mut String, hand: &Vec<Card>)
    ensures
        final(out)@ == old(out)@ + hand_text(hand@),
{
    let mut i: usize = 0;
    assert(hand_text(hand@.take(0)) =~= Seq::<char>::empty());
    assert(out@ =~= old(out)@ + hand_text(hand@.take(0)));
    while i < hand.len()
        invariant
            i <= hand@.len(),
            out@ == old(out)@ + hand_text(hand@.take(i as int)),
        decreases hand@.len() - i,
    {
        let ghost before = out@;
        if i > 0 {
            proof {
                reveal_strlit(" ");
            }
            out.append(" ");
        }
        push_card(out, hand[i]);
        proof {
            let longer = hand@.take(i + 1);
            assert(longer.drop_last() =~= hand@.take(i as int));
            assert(longer.last() == hand@[i as int]);
            if i == 0 {
                assert(hand_text(hand@.take(0)) =~= Seq::<char>::empty());
                assert(out@ =~= old(out)@ + hand_text(longer));
            } else {
                assert(out@ =~= old(out)@ + hand_text(longer));
            }
        }
        i += 1;
    }
    assert(hand@.take(hand@.len() as int) =~= hand@);
}

/// Appends the score as `<team one>-<team two>`.
pub fn push_score(out: &mut String, team_one: usize, team_two: usize)
    ensures
        final(out)@ == old(out)@ + score_text(team_one, team_two),
{
    proof {
        reveal_strlit("-");
    }
    push_decimal(out, team_one);
    out.append("-");
    push_decimal(out, team_two);
    assert(final(out)@ =~= old(out)@ + score_text(team_one, team_two));
}

/// The text that explains a reason.
fn reason_str(reason: ErrorReason) -> (text: &'static str)
    ensures
        text@ == reason_text(reason),
{
    match reason {
        ErrorReason::UnknownCommand => "unknown command",
        ErrorReason::EmptyGameName => "game name must not be empty",
        ErrorReason::WrongState => "command not allowed now",
        ErrorReason::GameUnavailable => "game not available",
        ErrorReason::NotYourTurn => "not your turn",
        ErrorReason::CardNotHeld => "card not in hand",
    }
}

/// The text of a message on the wire, with the line feed that ends it.
pub fn render(message: &Message) -> (text: String)
    ensures
        text@ == wire_text(message@),
{
    let mut out = String::new();
    proof {
        reveal_strlit(" ");
        reveal_strlit("\n");
        reveal_strlit("1");
        reveal_strlit("2");
    }
    match message {
        Message::Welcome(text) => {
            out.append("WELCOME\n");
            out.append(text.as_str());
        },
        Message::Joined => {
            out.append("JOINED");
        },
        Message::Error(reason) => {
            out.append("ERROR\n");
            out.append(reason_str(*reason));
        },
        Message::YourTurn(hand) => {
            out.append("YOUR TURN\n");
            push_hand(&mut out, hand);
        },
        Message::Play { player, card } => {
            out.append("PLAY\n");
            out.append(player.as_str());
            out.append(" ");
            push_card(&mut out, *card);
        },
        Message::TrickWinner { player, team_one, team_two } => {
            out.append("TRICK WINNER\n");
            out.append(player.as_str());
            out.append(" ");
            push_score(&mut out, *team_one, *team_two);
        },
        Message::GameWinner { team, team_one, team_two } => {
            out.append("GAME WINNER\n");
            match team {
                Team::One => {
                    out.append("1");
                },
                Team::Two => {
                    out.append("2");
                },
            }
            out.append(" ");
            push_score(&mut out, *team_one, *team_two);
        },
        Message::Disconnect => {
            out.append("DISCONNECT");
        },
        Message::Goodbye => {
            out.append("GOODBYE");
        },
    }
    assert(out@ =~= body_text(message@));
    out.append("\n");
    assert(out@ =~= wire_text(message@));
    out
}

} // verus!
