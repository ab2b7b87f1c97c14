//! The server as a state machine over plain values: what each event does
//! to the registries and counters, and which messages it sends to whom.

use crate::admission::released;
use crate::card::Card;
use crate::deck::{fresh_deck, hand_of, shuffled, state_after_shuffle, DECK_SIZE, RANKS};
use crate::game::{opened, without, GameView, PlayError, PlayResult, ReadyResult, SEATS};
use crate::protocol::{CommandView, ErrorReason, MessageView};
use crate::session::{fresh_session, SessionState, SessionView};
use vstd::prelude::*;

verus! {

/// A message together with the session it goes to.
pub type Addressed = (usize, MessageView);

/// A counter after one more event; it stays at the largest number it can hold.
pub open spec fn bumped(n: usize) -> usize {
    if n < usize::MAX {
        (n + 1) as usize
    } else {
        n
    }
}

/// How many of the sessions are connected.
pub open spec fn connected_count(sessions: Seq<SessionView>) -> nat
    decreases sessions.len(),
{
    if sessions.len() == 0 {
        0
    } else {
        connected_count(sessions.drop_last()) + if sessions.last().connected {
            1nat
        } else {
            0nat
        }
    }
}

/// One message for each of the players, in seat order.
pub open spec fn to_all(players: Seq<usize>, message: MessageView) -> Seq<Addressed> {
    Seq::new(players.len(), |k: int| (players[k], message))
}

/// Whether a game can take one more player.
pub open spec fn joinable(game: GameView) -> bool {
    game.state is Waiting && game.players.len() < SEATS
}

/// The state of the server as plain values.
pub struct ContextView {
    pub sessions: Seq<SessionView>,
    pub games: Seq<GameView>,
    pub free: nat,
    pub capacity: nat,
    pub message: Seq<char>,
    pub source: u64,
    pub games_started: usize,
    pub games_completed: usize,
    pub games_terminated: usize,
    pub total_tricks: usize,
}

impl ContextView {
    /// What must hold of a session that sits in a game that is not over:
    /// it is connected, and the game has it at the seat it names.
    pub open spec fn session_ok(self, i: int) -> bool {
        let s = self.sessions[i];
        s.is_seated() ==> {
            &&& s.connected
            &&& s.game is Some
            &&& s.game->Some_0 < self.games.len()
            &&& s.seat < self.games[s.game->Some_0 as int].players.len()
            &&& self.games[s.game->Some_0 as int].players[s.seat as int] == i
            &&& s.state is Playing ==> self.games[s.game->Some_0 as int].state is Playing
            &&& !(s.state is Playing) ==> self.games[s.game->Some_0 as int].state is Waiting
        }
    }

    /// What must hold of a seat of a game that is not over: the session at
    /// it exists and names this game and this seat; while the game is
    /// played, the cards in its hand and its card on the table are as many
    /// as the tricks that are left, and the tricks that are left and those
    /// that were taken are as many as the cards that were dealt to a seat.
    pub open spec fn seat_ok(self, g: int, k: int) -> bool {
        let game = self.games[g];
        let p = game.players[k];
        !(game.state is Completed) ==> {
            &&& p < self.sessions.len()
            &&& self.sessions[p as int].sits_in(g)
            &&& self.sessions[p as int].seat == k
            &&& game.state is Playing ==> self.sessions[p as int].hand.len() + (if game.slots[k]
                is Some {
                1int
            } else {
                0int
            }) == game.tricks_left && game.team_one + game.team_two + game.tricks_left == RANKS
        }
    }

    /// The invariant of the server: as many permits are taken as sessions
    /// are connected, every game is well formed, and sessions and seats
    /// name each other.
    pub open spec fn wf(self) -> bool {
        &&& self.free <= self.capacity
        &&& self.capacity - self.free == connected_count(self.sessions)
        &&& self.sessions.len() <= usize::MAX
        &&& self.games.len() <= usize::MAX
        &&& forall|g: int|
            0 <= g < self.games.len() ==> (#[trigger] self.games[g]).wf() && !(self.games[g].state
                is Ready)
        &&& forall|i: int| 0 <= i < self.sessions.len() ==> #[trigger] self.session_ok(i)
        &&& forall|g: int, k: int|
            0 <= g < self.games.len() && 0 <= k < self.games[g].players.len()
                ==> #[trigger] self.seat_ok(g, k)
    }

    /// Whether `session` is a session that is connected.
    pub open spec fn knows(self, session: usize) -> bool {
        session < self.sessions.len() && self.sessions[session as int].connected
    }

    /// Whether the session at seat `k` of game `g` exists and names that
    /// game and that seat.
    pub open spec fn seat_linked(self, g: int, k: int) -> bool {
        let p = self.games[g].players[k];
        p < self.sessions.len() && self.sessions[p as int].sits_in(g)
            && self.sessions[p as int].seat == k
    }

    /// Whether session `j`, if it sits in game `g`, is at the seat it names.
    pub open spec fn session_linked(self, g: int, j: int) -> bool {
        self.sessions[j].sits_in(g) ==> self.sessions[j].seat < self.games[g].players.len()
            && self.games[g].players[self.sessions[j].seat as int] == j
    }

    /// Whether game `g` and the sessions that sit in it name each other.
    pub open spec fn linked(self, g: int) -> bool {
        &&& forall|k: int|
            0 <= k < self.games[g].players.len() ==> #[trigger] self.seat_linked(g, k)
        &&& forall|j: int| 0 <= j < self.sessions.len() ==> #[trigger] self.session_linked(g, j)
    }

    /// The sessions after everybody who sits in game `g` moved to `state`,
    /// and, where hands are dealt, got the hand of the seat.
    pub open spec fn seated_become(
        self,
        g: int,
        state: SessionState,
        hands: Option<Seq<Seq<Card>>>,
    ) -> Seq<SessionView> {
        Seq::new(
            self.sessions.len(),
            |j: int|
                if self.sessions[j].sits_in(g) {
                    SessionView {
                        state,
                        hand: match hands {
                            Some(dealt) => dealt[self.sessions[j].seat as int],
                            None => self.sessions[j].hand,
                        },
                        ..self.sessions[j]
                    }
                } else {
                    self.sessions[j]
                },
        )
    }

    /// The four hands of the next game, by seat.
    pub open spec fn next_hands(self) -> Seq<Seq<Card>> {
        Seq::new(SEATS as nat, |k: int| hand_of(self.next_deck(), SEATS as int, k))
    }

    // ---- connecting ----
    /// The server after a client asked to connect: with a free permit the
    /// client gets it and a session of its own; without one nothing changes.
    pub open spec fn after_connect(self, name: Seq<char>) -> ContextView {
        if self.free > 0 {
            ContextView {
                sessions: self.sessions.push(fresh_session(name)),
                free: (self.free - 1) as nat,
                ..self
            }
        } else {
            self
        }
    }

    // ---- joining ----
    /// Whether `g` is a game of the given name that is not over.
    pub open spec fn is_open_named(self, g: int, name: Seq<char>) -> bool {
        0 <= g < self.games.len() && self.games[g].name == name && !(self.games[g].state
            is Completed)
    }

    /// The first game of the given name that is not over.
    pub open spec fn open_game(self, name: Seq<char>) -> Option<usize> {
        if exists|g: int| self.is_open_named(g, name) {
            Some(
                (choose|g: int|
                    self.is_open_named(g, name) && forall|h: int|
                        0 <= h < g ==> !self.is_open_named(h, name)) as usize,
            )
        } else {
            None
        }
    }

    /// Why a `JOIN` is turned down, if it is.
    pub open spec fn join_error(self, session: usize, name: Seq<char>) -> Option<ErrorReason> {
        if !(self.sessions[session as int].state is Idle) {
            Some(ErrorReason::WrongState)
        } else if name.len() == 0 {
            Some(ErrorReason::EmptyGameName)
        } else if self.open_game(name) is Some && !joinable(
            self.games[self.open_game(name)->Some_0 as int],
        ) {
            Some(ErrorReason::GameUnavailable)
        } else {
            None
        }
    }

    /// The server after a `JOIN`: the session sits at the next free seat of
    /// the game of that name, which is opened where there is none.
    pub open spec fn after_join(self, session: usize, name: Seq<char>) -> ContextView {
        let s = self.sessions[session as int];
        if self.join_error(session, name) is Some {
            self
        } else {
            match self.open_game(name) {
                Some(g) => ContextView {
                    games: self.games.update(g as int, self.games[g as int].joined(session)),
                    sessions: self.sessions.update(
                        session as int,
                        SessionView {
                            state: SessionState::Waiting,
                            game: Some(g),
                            seat: self.games[g as int].players.len() as usize,
                            ..s
                        },
                    ),
                    ..self
                },
                None => ContextView {
                    games: self.games.push(opened(name).joined(session)),
                    sessions: self.sessions.update(
                        session as int,
                        SessionView {
                            state: SessionState::Waiting,
                            game: Some(self.games.len() as usize),
                            seat: 0,
                            ..s
                        },
                    ),
                    ..self
                },
            }
        }
    }

    /// The messages that answer a `JOIN`.
    pub open spec fn join_messages(self, session: usize, name: Seq<char>) -> Seq<Addressed> {
        match self.join_error(session, name) {
            Some(reason) => seq![(session, MessageView::Error(reason))],
            None => seq![(session, MessageView::Joined)],
        }
    }

    // ---- readiness ----
    /// The game that a seated session sits in.
    pub open spec fn game_of(self, session: usize) -> int {
        self.sessions[session as int].game->Some_0 as int
    }

    /// Why a `READY` is turned down, if it is.
    pub open spec fn ready_error(self, session: usize) -> Option<ErrorReason> {
        if !(self.sessions[session as int].state is Waiting) {
            Some(ErrorReason::WrongState)
        } else if self.games[self.game_of(session)].ready_result() == ReadyResult::Refused {
            Some(ErrorReason::WrongState)
        } else {
            None
        }
    }

    /// Whether a `READY` from `session` is the one that starts its game.
    pub open spec fn starts_game(self, session: usize) -> bool {
        self.ready_error(session) is None && self.games[self.game_of(session)].ready_result()
            == ReadyResult::AllReady
    }

    /// The deck that the next game is dealt from, shuffled.
    pub open spec fn next_deck(self) -> Seq<Card> {
        shuffled(fresh_deck(), self.source, DECK_SIZE as nat)
    }

    /// The server after a `READY`. The session is ready. Where it is the
    /// fourth at its table, the game starts: a fresh deck is shuffled, each
    /// seat gets its thirteen cards, and everybody at the table plays.
    pub open spec fn after_ready(self, session: usize) -> ContextView {
        let s = self.sessions[session as int];
        let g = self.game_of(session);
        if self.ready_error(session) is Some {
            self
        } else if !self.starts_game(session) {
            ContextView {
                sessions: self.sessions.update(
                    session as int,
                    SessionView { state: SessionState::Ready, ..s },
                ),
                games: self.games.update(g, self.games[g].readied()),
                ..self
            }
        } else {
            ContextView {
                sessions: self.seated_become(
                    g,
                    SessionState::Playing,
                    Some(self.next_hands()),
                ),
                games: self.games.update(g, self.games[g].readied().started(RANKS)),
                source: state_after_shuffle(self.source, DECK_SIZE as nat),
                games_started: bumped(self.games_started),
                ..self
            }
        }
    }

    /// The messages that follow a `READY`: an error to the sender; or
    /// nothing; or, where the game starts, the prompt to the player at seat 0.
    pub open spec fn ready_messages(self, session: usize) -> Seq<Addressed> {
        match self.ready_error(session) {
            Some(reason) => seq![(session, MessageView::Error(reason))],
            None => if self.starts_game(session) {
                seq![
                    (
                        self.games[self.game_of(session)].players[0],
                        MessageView::YourTurn(self.next_hands()[0]),
                    ),
                ]
            } else {
                Seq::empty()
            },
        }
    }

    // ---- playing ----
    /// What the game makes of a card from `session`.
    pub open spec fn play_outcome(self, session: usize, card: Card) -> PlayResult {
        let s = self.sessions[session as int];
        self.games[self.game_of(session)].play_result(s.seat, card, s.hand)
    }

    /// Why a `PLAY` is turned down, if it is.
    pub open spec fn play_error(self, session: usize, card: Card) -> Option<ErrorReason> {
        if !(self.sessions[session as int].state is Playing) {
            Some(ErrorReason::WrongState)
        } else {
            match self.play_outcome(session, card) {
                PlayResult::Rejected(PlayError::NotPlaying) => Some(ErrorReason::WrongState),
                PlayResult::Rejected(PlayError::OutOfTurn) => Some(ErrorReason::NotYourTurn),
                PlayResult::Rejected(PlayError::NotHeld) => Some(ErrorReason::CardNotHeld),
                _ => None,
            }
        }
    }

    /// The server after a `PLAY`. A play that is turned down changes
    /// nothing. Otherwise the card leaves the hand and the game takes it; a
    /// completed trick is counted; with the last trick the game is counted as
    /// completed and everybody at the table is done.
    pub open spec fn after_play(self, session: usize, card: Card) -> ContextView {
        let s = self.sessions[session as int];
        let g = self.game_of(session);
        if self.play_error(session, card) is Some {
            self
        } else {
            let game = self.games[g].after_play(s.seat, card);
            let over = game.state is Completed;
            let laid = ContextView {
                sessions: self.sessions.update(
                    session as int,
                    SessionView { hand: without(s.hand, card), ..s },
                ),
                games: self.games.update(g, game),
                ..self
            };
            ContextView {
                sessions: if over {
                    laid.seated_become(g, SessionState::Completed, None)
                } else {
                    laid.sessions
                },
                games: laid.games,
                total_tricks: if self.games[g].completes_trick() {
                    bumped(self.total_tricks)
                } else {
                    self.total_tricks
                },
                games_completed: if over {
                    bumped(self.games_completed)
                } else {
                    self.games_completed
                },
                ..self
            }
        }
    }

    /// The prompt to the player whose turn it is in game `g`.
    pub open spec fn prompt(self, g: int) -> Addressed {
        let p = self.games[g].players[self.games[g].turn as int];
        (p, MessageView::YourTurn(self.sessions[p as int].hand))
    }

    /// The messages that follow a `PLAY`: an error to the sender alone; or
    /// the card to everybody at the table, then, where it completed a trick,
    /// the winner and the score to everybody, then either the winning side
    /// to everybody or the prompt to the player who is next.
    pub open spec fn play_messages(self, session: usize, card: Card) -> Seq<Addressed> {
        match self.play_error(session, card) {
            Some(reason) => seq![(session, MessageView::Error(reason))],
            None => {
                let s = self.sessions[session as int];
                let g = self.game_of(session);
                let after = self.after_play(session, card);
                let game = after.games[g];
                let players = self.games[g].players;
                let laid = to_all(players, MessageView::Play { player: s.name, card });
                if !self.games[g].completes_trick() {
                    laid.push(after.prompt(g))
                } else {
                    let taken = to_all(
                        players,
                        MessageView::TrickWinner {
                            player: self.sessions[players[game.leader as int] as int].name,
                            team_one: game.team_one,
                            team_two: game.team_two,
                        },
                    );
                    if game.state is Completed {
                        laid + taken + to_all(
                            players,
                            MessageView::GameWinner {
                                team: game.leading_team(),
                                team_one: game.team_one,
                                team_two: game.team_two,
                            },
                        )
                    } else {
                        (laid + taken).push(after.prompt(g))
                    }
                }
            },
        }
    }

    // ---- leaving ----
    /// The server after `session` left, by `EXIT` or by a lost connection:
    /// its permit is free again; a game it sat in is over, and so is every
    /// session at that table; a game that was being played is counted as
    /// terminated.
    pub open spec fn after_leave(self, session: usize) -> ContextView {
        let s = self.sessions[session as int];
        let g = self.game_of(session);
        let ended = if s.is_seated() {
            self.seated_become(g, SessionState::Completed, None)
        } else {
            self.sessions
        };
        ContextView {
            sessions: ended.update(
                session as int,
                SessionView { connected: false, state: SessionState::Completed, ..s },
            ),
            games: if s.is_seated() {
                self.games.update(g, self.games[g].aborted())
            } else {
                self.games
            },
            games_terminated: if s.state is Playing {
                bumped(self.games_terminated)
            } else {
                self.games_terminated
            },
            free: released(self.free, self.capacity),
            ..self
        }
    }

    /// The messages that follow the leaving of `session`: the farewell, if
    /// it asked to leave, and the notice to everybody else at its table.
    pub open spec fn leave_messages(self, session: usize, polite: bool) -> Seq<Addressed> {
        let s = self.sessions[session as int];
        let farewell: Seq<Addressed> = if polite {
            seq![(session, MessageView::Goodbye)]
        } else {
            Seq::empty()
        };
        if s.is_seated() {
            farewell + to_all(
                self.games[self.game_of(session)].players.remove(s.seat as int),
                MessageView::Disconnect,
            )
        } else {
            farewell
        }
    }

    // ---- commands ----
    /// The server after a command from `session`; a session that is not
    /// connected changes nothing.
    pub open spec fn after_command(self, session: usize, command: CommandView) -> ContextView {
        if !self.knows(session) {
            self
        } else {
            match command {
                CommandView::Join(name) => self.after_join(session, name),
                CommandView::Ready => self.after_ready(session),
                CommandView::Play(card) => self.after_play(session, card),
                CommandView::Exit => self.after_leave(session),
                CommandView::Malformed => self,
            }
        }
    }

    /// The messages that follow a command from `session`; a session that is
    /// not connected gets none.
    pub open spec fn command_messages(self, session: usize, command: CommandView) -> Seq<
        Addressed,
    > {
        if !self.knows(session) {
            Seq::empty()
        } else {
            match command {
                CommandView::Join(name) => self.join_messages(session, name),
                CommandView::Ready => self.ready_messages(session),
                CommandView::Play(card) => self.play_messages(session, card),
                CommandView::Exit => self.leave_messages(session, true),
                CommandView::Malformed => seq![
                    (session, MessageView::Error(ErrorReason::UnknownCommand)),
                ],
            }
        }
    }
}

/// One more session raises the count of the connected by one if it is
/// connected, and not at all if it is not.
pub proof fn lemma_count_push(sessions: Seq<SessionView>, s: SessionView)
    ensures
        connected_count(sessions.push(s)) == connected_count(sessions) + if s.connected {
            1nat
        } else {
            0nat
        },
{
    assert(sessions.push(s).drop_last() =~= sessions);
}

/// Replacing one session changes the count of the connected by what that
/// session changes.
pub proof fn lemma_count_update(sessions: Seq<SessionView>, i: int, s: SessionView)
    requires
        0 <= i < sessions.len(),
    ensures
        connected_count(sessions.update(i, s)) + (if sessions[i].connected {
            1nat
        } else {
            0nat
        }) == connected_count(sessions) + if s.connected {
            1nat
        } else {
            0nat
        },
    decreases sessions.len(),
{
    if i == sessions.len() - 1 {
        assert(sessions.update(i, s).drop_last() =~= sessions.drop_last());
    } else {
        lemma_count_update(sessions.drop_last(), i, s);
        assert(sessions.update(i, s).drop_last() =~= sessions.drop_last().update(i, s));
    }
}

/// Two lists of sessions that agree on who is connected have as many
/// connected sessions.
pub proof fn lemma_count_same(a: Seq<SessionView>, b: Seq<SessionView>)
    requires
        a.len() == b.len(),
        forall|i: int| 0 <= i < a.len() ==> a[i].connected == b[i].connected,
    ensures
        connected_count(a) == connected_count(b),
    decreases a.len(),
{
    if a.len() > 0 {
        lemma_count_same(a.drop_last(), b.drop_last());
    }
}

/// A connected session is counted: where one is connected, at least one is.
pub proof fn lemma_count_positive(sessions: Seq<SessionView>, i: int)
    requires
        0 <= i < sessions.len(),
        sessions[i].connected,
    ensures
        connected_count(sessions) > 0,
    decreases sessions.len(),
{
    if i < sessions.len() - 1 {
        lemma_count_positive(sessions.drop_last(), i);
    }
}

} // verus!
