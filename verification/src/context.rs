//! The shared server context: the registry of sessions, the registry of
//! games, admission control and the counters, with the handling of every
//! event that reaches the server.

use crate::admission::ConnectionSemaphore;
use crate::card::Card;
use crate::deck::{deal_game, SeededSource, RANKS};
use crate::game::{GameInfo, GameState, GameView, PlayError, PlayResult, ReadyResult, SEATS};
use crate::laws::{
    lemma_become_same, lemma_connect_wf, lemma_join_wf, lemma_leave_wf, lemma_linked_kept,
    lemma_open_game, lemma_play_wf, lemma_ready_wf, lemma_seated,
};
use crate::model::{bumped, to_all, Addressed, ContextView};
use crate::protocol::{
    decimal, parse_command, push_decimal, Command, ErrorReason, Message, MessageView,
};
use crate::session::{ClientSession, SessionState, SessionView};
use vstd::prelude::*;
use vstd::string::*;

verus! {

/// A message and the session it goes to.
#[derive(Debug)]
pub struct Outgoing {
    pub to: usize,
    pub message: Message,
}

/// The messages of a list as plain values, each with the session it goes to.
pub open spec fn addressed(out: Seq<Outgoing>) -> Seq<Addressed> {
    out.map_values(|o: Outgoing| (o.to, o.message@))
}

/// The sessions of a list as plain values.
spec fn session_views(sessions: Seq<ClientSession>) -> Seq<SessionView> {
    sessions.map_values(|s: ClientSession| s@)
}

/// The games of a list as plain values.
spec fn game_views(games: Seq<GameInfo>) -> Seq<GameView> {
    games.map_values(|g: GameInfo| g@)
}

/// The counters that the server reports.
#[derive(Clone, Copy, Debug, PartialEq, Eq, Structural)]
pub struct Stats {
    pub current_connected: usize,
    pub total_connected: usize,
    pub running_games: usize,
    pub games_started: usize,
    pub games_completed: usize,
    pub games_terminated: usize,
    pub total_tricks: usize,
    pub max_connections: usize,
}

/// The counters of a server in a given state.
pub open spec fn stats_of(c: ContextView) -> Stats {
    Stats {
        current_connected: (c.capacity - c.free) as usize,
        total_connected: c.sessions.len() as usize,
        running_games: if c.games_started >= c.games_completed + c.games_terminated {
            (c.games_started - c.games_completed - c.games_terminated) as usize
        } else {
            0
        },
        games_started: c.games_started,
        games_completed: c.games_completed,
        games_terminated: c.games_terminated,
        total_tricks: c.total_tricks,
        max_connections: c.capacity as usize,
    }
}

/// The report of the counters: one line for each.
pub open spec fn report_text(stats: Stats) -> Seq<char> {
    "Players connected: "@ + decimal(stats.current_connected as nat) + seq!['\n']
        + "Total connected players: "@ + decimal(stats.total_connected as nat) + seq!['\n']
        + "Running games: "@ + decimal(stats.running_games as nat) + seq!['\n']
        + "Games completed: "@ + decimal(stats.games_completed as nat) + seq!['\n']
        + "Games terminated: "@ + decimal(stats.games_terminated as nat) + seq!['\n']
        + "Total tricks: "@ + decimal(stats.total_tricks as nat) + seq!['\n']
}

impl Stats {
    /// The report that the operator gets when asking for the counters.
    pub fn report(&self) -> (text: String)
        ensures
            text@ == report_text(*self),
    {
        proof {
            reveal_strlit("\n");
        }
        let mut text = String::from_str("Players connected: ");
        push_decimal(&mut text, self.current_connected);
        text.append("\n");
        text.append("Total connected players: ");
        push_decimal(&mut text, self.total_connected);
        text.append("\n");
        text.append("Running games: ");
        push_decimal(&mut text, self.running_games);
        text.append("\n");
        text.append("Games completed: ");
        push_decimal(&mut text, self.games_completed);
        text.append("\n");
        text.append("Games terminated: ");
        push_decimal(&mut text, self.games_terminated);
        text.append("\n");
        text.append("Total tricks: ");
        push_decimal(&mut text, self.total_tricks);
        text.append("\n");
        assert(text@ =~= report_text(*self));
        text
    }
}

/// The shared state of the server.
#[derive(Debug)]
pub struct ServerContext {
    sessions: Vec<ClientSession>,
    games: Vec<GameInfo>,
    admission: ConnectionSemaphore,
    message: String,
    source: SeededSource,
    games_started: usize,
    games_completed: usize,
    games_terminated: usize,
    total_tricks: usize,
}

impl View for ServerContext {
    type V = ContextView;

    closed spec fn view(&self) -> ContextView {
        ContextView {
            sessions: session_views(self.sessions@),
            games: game_views(self.games@),
            free: self.admission.available(),
            capacity: self.admission.capacity(),
            message: self.message@,
            source: self.source.state,
            games_started: self.games_started,
            games_completed: self.games_completed,
            games_terminated: self.games_terminated,
            total_tricks: self.total_tricks,
        }
    }
}

/// A counter after one more event.
fn bump(n: usize) -> (m: usize)
    ensures
        m == bumped(n),
{
    if n < usize::MAX {
        n + 1
    } else {
        n
    }
}

/// One message to one session.
fn reply(session: usize, message: Message) -> (out: Vec<Outgoing>)
    ensures
        addressed(out@) == seq![(session, message@)],
{
    let mut out: Vec<Outgoing> = Vec::new();
    out.push(Outgoing { to: session, message });
    assert(addressed(out@) =~= seq![(session, message@)]);
    out
}

/// A copy of a hand.
pub fn copy_hand(hand: &Vec<Card>) -> (copy: Vec<Card>)
    ensures
        copy@ == hand@,
{
    let mut copy: Vec<Card> = Vec::new();
    let mut i: usize = 0;
    while i < hand.len()
        invariant
            i <= hand@.len(),
            copy@ == hand@.take(i as int),
        decreases hand@.len() - i,
    {
        copy.push(hand[i]);
        i += 1;
        assert(copy@ =~= hand@.take(i as int));
    }
    assert(hand@.take(hand@.len() as int) =~= hand@);
    copy
}

/// A copy of a message.
pub fn copy_message(message: &Message) -> (copy: Message)
    ensures
        copy@ == message@,
{
    match message {
        Message::Welcome(text) => Message::Welcome(text.clone()),
        Message::Joined => Message::Joined,
        Message::Error(reason) => Message::Error(*reason),
        Message::YourTurn(hand) => Message::YourTurn(copy_hand(hand)),
        Message::Play { player, card } => Message::Play { player: player.clone(), card: *card },
        Message::TrickWinner { player, team_one, team_two } => Message::TrickWinner {
            player: player.clone(),
            team_one: *team_one,
            team_two: *team_two,
        },
        Message::GameWinner { team, team_one, team_two } => Message::GameWinner {
            team: *team,
            team_one: *team_one,
            team_two: *team_two,
        },
        Message::Disconnect => Message::Disconnect,
        Message::Goodbye => Message::Goodbye,
    }
}

/// Hands as plain values.
spec fn hand_views(hands: Seq<Vec<Card>>) -> Seq<Seq<Card>> {
    hands.map_values(|hand: Vec<Card>| hand@)
}

/// The hands that are dealt, if any, as plain values.
spec fn dealt_views(deal: Option<&Vec<Vec<Card>>>) -> Option<Seq<Seq<Card>>> {
    match deal {
        Some(hands) => Some(hand_views(hands@)),
        None => None,
    }
}

/// The sessions while the seats below `k` of game `g` have been moved.
spec fn moved_below(
    c: ContextView,
    g: int,
    state: SessionState,
    hands: Option<Seq<Seq<Card>>>,
    k: int,
) -> Seq<SessionView> {
    Seq::new(
        c.sessions.len(),
        |j: int|
            if c.sessions[j].sits_in(g) && c.sessions[j].seat < k {
                c.seated_become(g, state, hands)[j]
            } else {
                c.sessions[j]
            },
    )
}

/// The players that have been told while the seats below `k` were gone
/// through and the seat `skip` was left out.
spec fn told_below(players: Seq<usize>, skip: int, k: int) -> Seq<usize> {
    if k <= skip {
        players.take(k)
    } else {
        players.take(k).remove(skip)
    }
}

impl ServerContext {
    /// The invariant of the server.
    pub open spec fn wf(&self) -> bool {
        self@.wf()
    }

    /// A server without sessions or games that admits `max_connections`
    /// connections at a time, greets with `message` and shuffles with
    /// numbers that follow from `seed`.
    pub fn new(max_connections: usize, message: String, seed: u64) -> (context: ServerContext)
        ensures
            context.wf(),
            context@ == (ContextView {
                sessions: Seq::empty(),
                games: Seq::empty(),
                free: max_connections as nat,
                capacity: max_connections as nat,
                message: message@,
                source: seed,
                games_started: 0,
                games_completed: 0,
                games_terminated: 0,
                total_tricks: 0,
            }),
    {
        let context = ServerContext {
            sessions: Vec::new(),
            games: Vec::new(),
            admission: ConnectionSemaphore::new(max_connections),
            message,
            source: SeededSource::new(seed),
            games_started: 0,
            games_completed: 0,
            games_terminated: 0,
            total_tricks: 0,
        };
        assert(context@.sessions =~= Seq::empty());
        assert(context@.games =~= Seq::empty());
        context
    }

    /// Admits a client if a permit is free: the client gets a session, whose
    /// number is the address of the greeting that is returned. Without a
    /// free permit the client is turned away and nothing changes.
    pub fn connect(&mut self, name: &str) -> (greeting: Option<Outgoing>)
        requires
            old(self).wf(),
        ensures
            final(self).wf(),
            final(self)@ == old(self)@.after_connect(name@),
            greeting is Some <==> old(self)@.free > 0,
            greeting is Some ==> greeting->Some_0.to == old(self)@.sessions.len()
                && greeting->Some_0.message@ == MessageView::Welcome(old(self)@.message),
    {
        if !self.admission.try_acquire() {
            return None;
        }
        let id: usize = self.sessions.len();
        self.sessions.push(ClientSession::new(String::from_str(name)));
        proof {
            assert(self.sessions@.len() == id + 1);
            assert(id < usize::MAX) by {
                assert(self.sessions.len() <= usize::MAX);
            }
            assert(self@.sessions =~= old(self)@.after_connect(name@).sessions);
            lemma_connect_wf(old(self)@, name@);
        }
        Some(Outgoing { to: id, message: Message::Welcome(self.message.clone()) })
    }

    /// Finds the first game of the given name that is not over.
    fn find_open(&self, name: &String) -> (found: Option<usize>)
        requires
            self.wf(),
        ensures
            found == self@.open_game(name@),
            found is Some ==> found->Some_0 < self.games@.len(),
    {
        proof {
            lemma_open_game(self@, name@);
        }
        let mut g: usize = 0;
        while g < self.games.len()
            invariant
                g <= self.games@.len(),
                forall|h: int| 0 <= h < g ==> !self@.is_open_named(h, name@),
            decreases self.games@.len() - g,
        {
            let over = match self.games[g].state {
                GameState::Completed => true,
                _ => false,
            };
            if !over && self.games[g].name == *name {
                assert(self@.is_open_named(g as int, name@));
                let ghost first = self@.open_game(name@)->Some_0 as int;
                assert(first == g) by {
                    if first < g {
                        assert(!self@.is_open_named(first, name@));
                    }
                }
                return Some(g);
            }
            assert(!self@.is_open_named(g as int, name@));
            g += 1;
        }
        assert forall|h: int| !self@.is_open_named(h, name@) by {}
        None
    }

    /// Seats a session: it waits in game `g` at `seat`.
    fn seat_session(&mut self, session: usize, g: usize, seat: usize)
        requires
            session < old(self)@.sessions.len(),
        ensures
            final(self)@ == (ContextView {
                sessions: old(self)@.sessions.update(
                    session as int,
                    SessionView {
                        state: SessionState::Waiting,
                        game: Some(g),
                        seat,
                        ..old(self)@.sessions[session as int]
                    },
                ),
                ..old(self)@
            }),
    {
        self.sessions[session].state = SessionState::Waiting;
        self.sessions[session].game = Some(g);
        self.sessions[session].seat = seat;
        assert(self@.sessions =~= old(self)@.sessions.update(
            session as int,
            SessionView {
                state: SessionState::Waiting,
                game: Some(g),
                seat,
                ..old(self)@.sessions[session as int]
            },
        ));
    }

    /// Sets the state of a session.
    fn set_state(&mut self, session: usize, state: SessionState)
        requires
            session < old(self)@.sessions.len(),
        ensures
            final(self)@ == (ContextView {
                sessions: old(self)@.sessions.update(
                    session as int,
                    SessionView { state, ..old(self)@.sessions[session as int] },
                ),
                ..old(self)@
            }),
    {
        self.sessions[session].state = state;
        assert(self@.sessions =~= old(self)@.sessions.update(
            session as int,
            SessionView { state, ..old(self)@.sessions[session as int] },
        ));
    }

    /// Adds a game to the registry and returns its number.
    fn add_game(&mut self, game: GameInfo) -> (g: usize)
        ensures
            g == old(self)@.games.len(),
            g < usize::MAX,
            final(self)@ == (ContextView { games: old(self)@.games.push(game@), ..old(self)@ }),
    {
        let g: usize = self.games.len();
        self.games.push(game);
        assert(g < usize::MAX) by {
            assert(self.games.len() <= usize::MAX);
        }
        assert(self@.games =~= old(self)@.games.push(game@));
        g
    }

    /// Seats a session at the next free seat of game `g`.
    fn take_seat(&mut self, g: usize, session: usize) -> (seat: usize)
        requires
            g < old(self)@.games.len(),
            old(self)@.games[g as int].wf(),
            old(self)@.games[g as int].can_join(session),
        ensures
            seat == old(self)@.games[g as int].players.len(),
            final(self)@ == (ContextView {
                games: old(self)@.games.update(
                    g as int,
                    old(self)@.games[g as int].joined(session),
                ),
                ..old(self)@
            }),
    {
        let taken = self.games[g].join(session);
        assert(self@.games =~= old(self)@.games.update(
            g as int,
            old(self)@.games[g as int].joined(session),
        ));
        match taken {
            Some(seat) => seat,
            None => 0,
        }
    }

    /// Whether game `g` can take one more player.
    fn is_joinable(&self, g: usize) -> (yes: bool)
        requires
            g < self@.games.len(),
        ensures
            yes == crate::model::joinable(self@.games[g as int]),
    {
        match self.games[g].state {
            GameState::Waiting => self.games[g].players.len() < SEATS,
            _ => false,
        }
    }

    /// The state of a session.
    fn state_of(&self, session: usize) -> (state: SessionState)
        requires
            session < self@.sessions.len(),
        ensures
            state == self@.sessions[session as int].state,
    {
        self.sessions[session].state
    }

    /// The game that a seated session sits in.
    fn game_index(&self, session: usize) -> (g: usize)
        requires
            self.wf(),
            session < self@.sessions.len(),
            self@.sessions[session as int].is_seated(),
        ensures
            g == self@.game_of(session),
            g < self@.games.len(),
    {
        proof {
            lemma_seated(self@, session);
        }
        match self.sessions[session].game {
            Some(g) => g,
            None => 0,
        }
    }

    /// The seat of a session.
    fn seat_index(&self, session: usize) -> (seat: usize)
        requires
            session < self@.sessions.len(),
        ensures
            seat == self@.sessions[session as int].seat,
    {
        self.sessions[session].seat
    }

    /// Counts one more player of game `g` as ready.
    fn count_ready(&mut self, g: usize) -> (result: ReadyResult)
        requires
            g < old(self)@.games.len(),
            old(self)@.games[g as int].wf(),
        ensures
            result == old(self)@.games[g as int].ready_result(),
            final(self)@ == (ContextView {
                games: old(self)@.games.update(g as int, old(self)@.games[g as int].readied()),
                ..old(self)@
            }),
    {
        let result = self.games[g].mark_ready();
        assert(self@.games =~= old(self)@.games.update(
            g as int,
            old(self)@.games[g as int].readied(),
        ));
        result
    }

    /// Starts play in game `g`, whose seats are all ready.
    fn begin(&mut self, g: usize)
        requires
            g < old(self)@.games.len(),
            old(self)@.games[g as int].wf(),
            old(self)@.games[g as int].state is Ready,
        ensures
            final(self)@ == (ContextView {
                games: old(self)@.games.update(
                    g as int,
                    old(self)@.games[g as int].started(RANKS),
                ),
                ..old(self)@
            }),
    {
        let started = self.games[g].start(RANKS);
        assert(self@.games =~= old(self)@.games.update(
            g as int,
            old(self)@.games[g as int].started(RANKS),
        ));
    }

    /// Ends game `g` where it stands.
    fn end_game(&mut self, g: usize)
        requires
            g < old(self)@.games.len(),
            old(self)@.games[g as int].wf(),
        ensures
            final(self)@ == (ContextView {
                games: old(self)@.games.update(g as int, old(self)@.games[g as int].aborted()),
                ..old(self)@
            }),
    {
        self.games[g].abort();
        assert(self@.games =~= old(self)@.games.update(
            g as int,
            old(self)@.games[g as int].aborted(),
        ));
    }

    /// Hands a card from a session to game `g`.
    fn lay(&mut self, g: usize, session: usize, card: Card) -> (result: PlayResult)
        requires
            g < old(self)@.games.len(),
            session < old(self)@.sessions.len(),
            old(self)@.games[g as int].wf(),
        ensures
            result == old(self)@.games[g as int].play_result(
                old(self)@.sessions[session as int].seat,
                card,
                old(self)@.sessions[session as int].hand,
            ),
            result is Rejected ==> final(self)@ == old(self)@,
            !(result is Rejected) ==> final(self)@ == (ContextView {
                sessions: old(self)@.sessions.update(
                    session as int,
                    SessionView {
                        hand: crate::game::without(old(self)@.sessions[session as int].hand, card),
                        ..old(self)@.sessions[session as int]
                    },
                ),
                games: old(self)@.games.update(
                    g as int,
                    old(self)@.games[g as int].after_play(
                        old(self)@.sessions[session as int].seat,
                        card,
                    ),
                ),
                ..old(self)@
            }),
    {
        let seat: usize = self.sessions[session].seat;
        let result = self.games[g].play(seat, card, &mut self.sessions[session].hand);
        proof {
            if result is Rejected {
                assert(self@.sessions =~= old(self)@.sessions);
                assert(self@.games =~= old(self)@.games);
            } else {
                assert(self@.sessions =~= old(self)@.sessions.update(
                    session as int,
                    SessionView {
                        hand: crate::game::without(old(self)@.sessions[session as int].hand, card),
                        ..old(self)@.sessions[session as int]
                    },
                ));
                assert(self@.games =~= old(self)@.games.update(
                    g as int,
                    old(self)@.games[g as int].after_play(
                        old(self)@.sessions[session as int].seat,
                        card,
                    ),
                ));
            }
        }
        result
    }

    /// Moves everybody who sits in game `g` to `state`; where hands are
    /// dealt, each gets the hand of the seat.
    fn move_table(&mut self, g: usize, state: SessionState, deal: Option<&Vec<Vec<Card>>>)
        requires
            g < old(self)@.games.len(),
            old(self)@.linked(g as int),
            deal is Some ==> deal->Some_0@.len() >= old(self)@.games[g as int].players.len(),
        ensures
            final(self)@ == (ContextView {
                sessions: old(self)@.seated_become(g as int, state, dealt_views(deal)),
                ..old(self)@
            }),
    {
        let ghost before = self@;
        let ghost hands = dealt_views(deal);
        let n: usize = self.games[g].players.len();
        let mut k: usize = 0;
        assert(self@.sessions =~= moved_below(before, g as int, state, hands, 0));
        while k < n
            invariant
                k <= n,
                g < before.games.len(),
                n == before.games[g as int].players.len(),
                before == old(self)@,
                before.linked(g as int),
                hands == dealt_views(deal),
                deal is Some ==> deal->Some_0@.len() >= n,
                self.sessions@.len() == before.sessions.len(),
                self@ == (ContextView {
                    sessions: moved_below(before, g as int, state, hands, k as int),
                    ..before
                }),
            decreases n - k,
        {
            let ghost earlier = self@;
            let p: usize = self.games[g].players[k];
            assert(p == before.games[g as int].players[k as int]);
            assert(before.seat_linked(g as int, k as int));
            self.sessions[p].state = state;
            match deal {
                Some(dealt) => {
                    self.sessions[p].hand = copy_hand(&dealt[k]);
                },
                None => {},
            }
            k += 1;
            proof {
                let target = moved_below(before, g as int, state, hands, k as int);
                assert(self@.sessions.len() == target.len());
                assert forall|j: int| 0 <= j < target.len() implies self@.sessions[j]
                    == target[j] by {
                    if j != p {
                        assert(self@.sessions[j] == earlier.sessions[j]);
                    } else {
                        assert(earlier.sessions[j] == before.sessions[j]);
                        assert(self.sessions@[j]@.state == state);
                        if deal is Some {
                            assert(hands->Some_0[k - 1] == deal->Some_0@[k - 1]@);
                        }
                        assert(self@.sessions[j] == self.sessions@[j]@);
                    }
                    assert(before.session_linked(g as int, j));
                }
                assert(self@.sessions =~= target);
            }
        }
        proof {
            let target = before.seated_become(g as int, state, hands);
            assert forall|j: int| 0 <= j < target.len() implies self@.sessions[j] == target[j] by {
                assert(before.session_linked(g as int, j));
            }
            assert(self@.sessions =~= target);
        }
    }

    /// Adds one message for each player of game `g`, in seat order.
    fn tell_all(&self, out: &mut Vec<Outgoing>, g: usize, message: &Message)
        requires
            g < self@.games.len(),
        ensures
            addressed(final(out)@) == addressed(old(out)@) + to_all(
                self@.games[g as int].players,
                message@,
            ),
    {
        let n: usize = self.games[g].players.len();
        let ghost players = self@.games[g as int].players;
        let mut k: usize = 0;
        assert(addressed(out@) =~= addressed(old(out)@) + to_all(players.take(0), message@));
        while k < n
            invariant
                k <= n,
                g < self@.games.len(),
                players == self@.games[g as int].players,
                n == players.len(),
                addressed(out@) == addressed(old(out)@) + to_all(
                    players.take(k as int),
                    message@,
                ),
            decreases n - k,
        {
            let ghost so_far = addressed(out@);
            let p: usize = self.games[g].players[k];
            out.push(Outgoing { to: p, message: copy_message(message) });
            k += 1;
            assert(addressed(out@) =~= so_far.push((p, message@)));
            assert(addressed(out@) =~= addressed(old(out)@) + to_all(
                players.take(k as int),
                message@,
            ));
        }
        assert(players.take(n as int) =~= players);
    }

    /// Adds one message for each player of game `g` but the one at `skip`.
    fn tell_others(&self, out: &mut Vec<Outgoing>, g: usize, skip: usize, message: &Message)
        requires
            g < self@.games.len(),
            skip < self@.games[g as int].players.len(),
        ensures
            addressed(final(out)@) == addressed(old(out)@) + to_all(
                self@.games[g as int].players.remove(skip as int),
                message@,
            ),
    {
        let n: usize = self.games[g].players.len();
        let ghost players = self@.games[g as int].players;
        let mut k: usize = 0;
        assert(addressed(out@) =~= addressed(old(out)@) + to_all(
            told_below(players, skip as int, 0),
            message@,
        ));
        while k < n
            invariant
                k <= n,
                skip < n,
                g < self@.games.len(),
                players == self@.games[g as int].players,
                n == players.len(),
                addressed(out@) == addressed(old(out)@) + to_all(
                    told_below(players, skip as int, k as int),
                    message@,
                ),
            decreases n - k,
        {
            let ghost so_far = addressed(out@);
            let ghost told = told_below(players, skip as int, k as int);
            if k != skip {
                let p: usize = self.games[g].players[k];
                out.push(Outgoing { to: p, message: copy_message(message) });
                assert(addressed(out@) =~= so_far.push((p, message@)));
                assert(told_below(players, skip as int, k + 1) =~= told.push(p));
            } else {
                assert(told_below(players, skip as int, k + 1) =~= told);
            }
            k += 1;
            assert(addressed(out@) =~= addressed(old(out)@) + to_all(
                told_below(players, skip as int, k as int),
                message@,
            ));
        }
        assert(players.take(n as int) =~= players);
    }

    /// Adds the prompt to the player whose turn it is in game `g`.
    fn prompt(&self, out: &mut Vec<Outgoing>, g: usize)
        requires
            g < self@.games.len(),
            self@.games[g as int].turn < self@.games[g as int].players.len(),
            self@.games[g as int].players[self@.games[g as int].turn as int]
                < self@.sessions.len(),
        ensures
            addressed(final(out)@) == addressed(old(out)@).push(self@.prompt(g as int)),
    {
        let p: usize = self.games[g].players[self.games[g].turn];
        let hand = copy_hand(&self.sessions[p].hand);
        out.push(Outgoing { to: p, message: Message::YourTurn(hand) });
        assert(addressed(out@) =~= addressed(old(out)@).push(self@.prompt(g as int)));
    }

    /// The session at a seat of game `g`.
    fn player_at(&self, g: usize, seat: usize) -> (p: usize)
        requires
            g < self@.games.len(),
            seat < self@.games[g as int].players.len(),
        ensures
            p == self@.games[g as int].players[seat as int],
    {
        self.games[g].players[seat]
    }

    /// The name of the player at a seat of game `g`.
    fn player_name(&self, g: usize, seat: usize) -> (name: String)
        requires
            g < self@.games.len(),
            seat < self@.games[g as int].players.len(),
            self@.games[g as int].players[seat as int] < self@.sessions.len(),
        ensures
            name@ == self@.sessions[self@.games[g as int].players[seat as int] as int].name,
    {
        self.sessions[self.games[g].players[seat]].name.clone()
    }

    /// Handles `JOIN <name>` from a connected session.
    fn join(&mut self, session: usize, name: String) -> (out: Vec<Outgoing>)
        requires
            old(self).wf(),
            old(self)@.knows(session),
        ensures
            final(self).wf(),
            final(self)@ == old(self)@.after_join(session, name@),
            addressed(out@) == old(self)@.join_messages(session, name@),
    {
        match self.state_of(session) {
            SessionState::Idle => {},
            _ => {
                return reply(session, Message::Error(ErrorReason::WrongState));
            },
        }
        if name.as_str().unicode_len() == 0 {
            return reply(session, Message::Error(ErrorReason::EmptyGameName));
        }
        let found = self.find_open(&name);
        let ghost before = self@;
        let ghost label = name@;
        match found {
            Some(g) => {
                if !self.is_joinable(g) {
                    return reply(session, Message::Error(ErrorReason::GameUnavailable));
                }
                proof {
                    lemma_join_wf(before, session, label);
                    assert(before.games[g as int].wf());
                    assert(!before.games[g as int].players.contains(session)) by {
                        if before.games[g as int].players.contains(session) {
                            let k = choose|k: int|
                                0 <= k < before.games[g as int].players.len()
                                    && before.games[g as int].players[k] == session;
                            assert(before.seat_ok(g as int, k));
                        }
                    }
                }
                let seat: usize = self.take_seat(g, session);
                self.seat_session(session, g, seat);
            },
            None => {
                let mut game = GameInfo::new(name);
                let taken = game.join(session);
                let g: usize = self.add_game(game);
                self.seat_session(session, g, 0);
                proof {
                    lemma_join_wf(before, session, label);
                }
            },
        }
        reply(session, Message::Joined)
    }

    /// Deals a fresh, shuffled deck to game `g`, whose seats are all ready,
    /// and starts play.
    fn start_game(&mut self, g: usize) -> (out: Vec<Outgoing>)
        requires
            g < old(self)@.games.len(),
            old(self)@.games[g as int].wf(),
            old(self)@.games[g as int].state is Ready,
            old(self)@.games[g as int].players.len() == SEATS,
            old(self)@.linked(g as int),
        ensures
            final(self)@ == (ContextView {
                sessions: old(self)@.seated_become(
                    g as int,
                    SessionState::Playing,
                    Some(old(self)@.next_hands()),
                ),
                games: old(self)@.games.update(
                    g as int,
                    old(self)@.games[g as int].started(RANKS),
                ),
                source: crate::deck::state_after_shuffle(
                    old(self)@.source,
                    crate::deck::DECK_SIZE as nat,
                ),
                games_started: bumped(old(self)@.games_started),
                ..old(self)@
            }),
            addressed(out@) == seq![
                (
                    old(self)@.games[g as int].players[0],
                    MessageView::YourTurn(old(self)@.next_hands()[0]),
                ),
            ],
    {
        let ghost before = self@;
        let hands = self.deal_hands();
        let ghost dealt = self@;
        proof {
            lemma_linked_kept(before, dealt, g as int);
            lemma_become_same(
                before,
                dealt,
                g as int,
                SessionState::Playing,
                Some(before.next_hands()),
            );
        }
        self.move_table(g, SessionState::Playing, Some(&hands));
        self.begin(g);
        let leader: usize = self.player_at(g, 0);
        let first = copy_hand(&hands[0]);
        assert(first@ == before.next_hands()[0]) by {
            assert(hand_views(hands@)[0] == hands@[0]@);
        }
        reply(leader, Message::YourTurn(first))
    }

    /// Shuffles a fresh deck and deals it into four hands; the game that is
    /// started with them is counted.
    fn deal_hands(&mut self) -> (hands: Vec<Vec<Card>>)
        ensures
            hands@.len() == SEATS,
            hand_views(hands@) == old(self)@.next_hands(),
            final(self)@ == (ContextView {
                source: crate::deck::state_after_shuffle(
                    old(self)@.source,
                    crate::deck::DECK_SIZE as nat,
                ),
                games_started: bumped(old(self)@.games_started),
                ..old(self)@
            }),
    {
        let hands = deal_game(&mut self.source);
        self.games_started = bump(self.games_started);
        assert(hand_views(hands@) =~= old(self)@.next_hands());
        hands
    }

    /// Handles `READY` from a connected session.
    fn ready(&mut self, session: usize) -> (out: Vec<Outgoing>)
        requires
            old(self).wf(),
            old(self)@.knows(session),
        ensures
            final(self).wf(),
            final(self)@ == old(self)@.after_ready(session),
            addressed(out@) == old(self)@.ready_messages(session),
    {
        match self.state_of(session) {
            SessionState::Waiting => {},
            _ => {
                return reply(session, Message::Error(ErrorReason::WrongState));
            },
        }
        let ghost before = self@;
        proof {
            lemma_seated(before, session);
        }
        let g: usize = self.game_index(session);
        match self.count_ready(g) {
            ReadyResult::Refused => {
                assert(self@.games =~= before.games);
                reply(session, Message::Error(ErrorReason::WrongState))
            },
            ReadyResult::Counted => {
                self.set_state(session, SessionState::Ready);
                let out: Vec<Outgoing> = Vec::new();
                assert(addressed(out@) =~= Seq::<Addressed>::empty());
                proof {
                    lemma_ready_wf(before, session);
                }
                out
            },
            ReadyResult::AllReady => {
                let ghost counted = self@;
                proof {
                    assert(counted.games[g as int] == before.games[g as int].readied());
                    lemma_linked_kept(before, counted, g as int);
                    lemma_become_same(
                        before,
                        counted,
                        g as int,
                        SessionState::Playing,
                        Some(before.next_hands()),
                    );
                    assert(counted.next_hands() == before.next_hands());
                }
                let out = self.start_game(g);
                proof {
                    assert(self@.games =~= before.after_ready(session).games);
                    lemma_ready_wf(before, session);
                }
                out
            },
        }
    }

    /// Handles `PLAY <card>` from a connected session.
    fn play(&mut self, session: usize, card: Card) -> (out: Vec<Outgoing>)
        requires
            old(self).wf(),
            old(self)@.knows(session),
        ensures
            final(self).wf(),
            final(self)@ == old(self)@.after_play(session, card),
            addressed(out@) == old(self)@.play_messages(session, card),
    {
        match self.state_of(session) {
            SessionState::Playing => {},
            _ => {
                return reply(session, Message::Error(ErrorReason::WrongState));
            },
        }
        let ghost before = self@;
        proof {
            lemma_seated(before, session);
            lemma_play_wf(before, session, card);
        }
        let g: usize = self.game_index(session);
        let seat: usize = self.seat_index(session);
        let result = self.lay(g, session, card);
        match result {
            PlayResult::Rejected(PlayError::NotPlaying) => reply(
                session,
                Message::Error(ErrorReason::WrongState),
            ),
            PlayResult::Rejected(PlayError::OutOfTurn) => reply(
                session,
                Message::Error(ErrorReason::NotYourTurn),
            ),
            PlayResult::Rejected(PlayError::NotHeld) => reply(
                session,
                Message::Error(ErrorReason::CardNotHeld),
            ),
            PlayResult::Placed => {
                let mut out: Vec<Outgoing> = Vec::new();
                self.announce_card(&mut out, g, session, card);
                proof {
                    crate::game::lemma_placed(before.games[g as int], seat, card);
                    assert(self@.seat_ok(g as int, self@.games[g as int].turn as int));
                }
                self.prompt(&mut out, g);
                assert(addressed(out@) =~= before.play_messages(session, card));
                out
            },
            PlayResult::TrickTaken { winner } => {
                self.total_tricks = bump(self.total_tricks);
                let mut out: Vec<Outgoing> = Vec::new();
                self.announce_card(&mut out, g, session, card);
                proof {
                    crate::game::lemma_placed(before.games[g as int], seat, card);
                    assert(before.games[g as int].completes_trick());
                    assert(self@.sessions =~= before.after_play(session, card).sessions);
                    assert(self@ == before.after_play(session, card));
                    assert(self@.games[g as int].state is Playing);
                    assert(self@.games[g as int].wf());
                    assert(self@.seat_ok(g as int, self@.games[g as int].turn as int));
                    assert(self@.seat_ok(g as int, self@.games[g as int].leader as int));
                }
                self.announce_trick(&mut out, g);
                self.prompt(&mut out, g);
                assert(addressed(out@) =~= before.play_messages(session, card));
                out
            },
            PlayResult::GameFinished { winner, team } => {
                self.total_tricks = bump(self.total_tricks);
                self.games_completed = bump(self.games_completed);
                let ghost laid = self@;
                proof {
                    crate::game::lemma_placed(before.games[g as int], seat, card);
                    lemma_linked_kept(before, laid, g as int);
                    assert(laid.seat_linked(g as int, laid.games[g as int].leader as int));
                }
                let mut out: Vec<Outgoing> = Vec::new();
                self.announce_card(&mut out, g, session, card);
                self.announce_trick(&mut out, g);
                self.announce_result(&mut out, g);
                self.move_table(g, SessionState::Completed, None);
                assert(addressed(out@) =~= before.play_messages(session, card));
                out
            },
        }
    }

    /// Tells the table of game `g` which card `session` laid.
    fn announce_card(&self, out: &mut Vec<Outgoing>, g: usize, session: usize, card: Card)
        requires
            g < self@.games.len(),
            session < self@.sessions.len(),
        ensures
            addressed(final(out)@) == addressed(old(out)@) + to_all(
                self@.games[g as int].players,
                MessageView::Play { player: self@.sessions[session as int].name, card },
            ),
    {
        let message = Message::Play { player: self.sessions[session].name.clone(), card };
        self.tell_all(out, g, &message);
    }

    /// Tells the table of game `g` who took the last trick, and the score.
    /// The winner of a trick is the one who leads the next.
    fn announce_trick(&self, out: &mut Vec<Outgoing>, g: usize)
        requires
            g < self@.games.len(),
            self@.games[g as int].leader < self@.games[g as int].players.len(),
            self@.games[g as int].players[self@.games[g as int].leader as int]
                < self@.sessions.len(),
        ensures
            addressed(final(out)@) == addressed(old(out)@) + to_all(
                self@.games[g as int].players,
                MessageView::TrickWinner {
                    player: self@.sessions[self@.games[g as int].players[self@.games[g
                        as int].leader as int] as int].name,
                    team_one: self@.games[g as int].team_one,
                    team_two: self@.games[g as int].team_two,
                },
            ),
    {
        let message = Message::TrickWinner {
            player: self.player_name(g, self.games[g].leader),
            team_one: self.games[g].team_one,
            team_two: self.games[g].team_two,
        };
        self.tell_all(out, g, &message);
    }

    /// Tells the table of game `g` which side won, and the score.
    fn announce_result(&self, out: &mut Vec<Outgoing>, g: usize)
        requires
            g < self@.games.len(),
        ensures
            addressed(final(out)@) == addressed(old(out)@) + to_all(
                self@.games[g as int].players,
                MessageView::GameWinner {
                    team: self@.games[g as int].leading_team(),
                    team_one: self@.games[g as int].team_one,
                    team_two: self@.games[g as int].team_two,
                },
            ),
    {
        let message = Message::GameWinner {
            team: self.games[g].winning_team(),
            team_one: self.games[g].team_one,
            team_two: self.games[g].team_two,
        };
        self.tell_all(out, g, &message);
    }

    /// Marks a session as gone and gives its permit back.
    fn close(&mut self, session: usize)
        requires
            session < old(self)@.sessions.len(),
            old(self)@.free <= old(self)@.capacity,
        ensures
            final(self)@ == (ContextView {
                sessions: old(self)@.sessions.update(
                    session as int,
                    SessionView {
                        connected: false,
                        state: SessionState::Completed,
                        ..old(self)@.sessions[session as int]
                    },
                ),
                free: crate::admission::released(old(self)@.free, old(self)@.capacity),
                ..old(self)@
            }),
    {
        self.sessions[session].connected = false;
        self.sessions[session].state = SessionState::Completed;
        self.admission.release();
        assert(self@.sessions =~= old(self)@.sessions.update(
            session as int,
            SessionView {
                connected: false,
                state: SessionState::Completed,
                ..old(self)@.sessions[session as int]
            },
        ));
    }

    /// Handles the leaving of a connected session, by `EXIT` (`polite`) or
    /// by a lost connection.
    fn leave(&mut self, session: usize, polite: bool) -> (out: Vec<Outgoing>)
        requires
            old(self).wf(),
            old(self)@.knows(session),
        ensures
            final(self).wf(),
            final(self)@ == old(self)@.after_leave(session),
            addressed(out@) == old(self)@.leave_messages(session, polite),
    {
        let ghost before = self@;
        proof {
            lemma_leave_wf(before, session);
        }
        let mut out: Vec<Outgoing> = Vec::new();
        assert(addressed(out@) =~= Seq::<Addressed>::empty());
        if polite {
            out.push(Outgoing { to: session, message: Message::Goodbye });
            assert(addressed(out@) =~= seq![(session, MessageView::Goodbye)]);
        }
        if self.sessions[session].is_seated() {
            proof {
                lemma_seated(before, session);
            }
            let g: usize = self.game_index(session);
            let seat: usize = self.seat_index(session);
            let playing = match self.state_of(session) {
                SessionState::Playing => true,
                _ => false,
            };
            self.tell_others(&mut out, g, seat, &Message::Disconnect);
            self.move_table(g, SessionState::Completed, None);
            self.end_game(g);
            if playing {
                self.games_terminated = bump(self.games_terminated);
            }
        }
        self.close(session);
        proof {
            assert(self@.sessions =~= before.after_leave(session).sessions);
            assert(addressed(out@) =~= before.leave_messages(session, polite));
        }
        out
    }

    /// Handles a command from a session. A session that is not connected
    /// is not answered and changes nothing.
    pub fn handle_command(&mut self, session: usize, command: Command) -> (out: Vec<Outgoing>)
        requires
            old(self).wf(),
        ensures
            final(self).wf(),
            final(self)@ == old(self)@.after_command(session, command@),
            addressed(out@) == old(self)@.command_messages(session, command@),
    {
        if session >= self.sessions.len() || !self.sessions[session].connected {
            let out: Vec<Outgoing> = Vec::new();
            assert(addressed(out@) =~= Seq::<Addressed>::empty());
            return out;
        }
        match command {
            Command::Join(name) => self.join(session, name),
            Command::Ready => self.ready(session),
            Command::Play(card) => self.play(session, card),
            Command::Exit => self.leave(session, true),
            Command::Malformed => reply(session, Message::Error(ErrorReason::UnknownCommand)),
        }
    }

    /// Handles one line that a session sent.
    pub fn handle_line(&mut self, session: usize, line: &str) -> (out: Vec<Outgoing>)
        requires
            old(self).wf(),
        ensures
            final(self).wf(),
            final(self)@ == old(self)@.after_command(
                session,
                crate::protocol::command_of(line@),
            ),
            addressed(out@) == old(self)@.command_messages(
                session,
                crate::protocol::command_of(line@),
            ),
    {
        self.handle_command(session, parse_command(line))
    }

    /// Handles the loss of a session's connection: the same as `EXIT`, but
    /// without a farewell. A session that is not connected changes nothing.
    pub fn disconnect(&mut self, session: usize) -> (out: Vec<Outgoing>)
        requires
            old(self).wf(),
        ensures
            final(self).wf(),
            final(self)@ == if old(self)@.knows(session) {
                old(self)@.after_leave(session)
            } else {
                old(self)@
            },
            addressed(out@) == if old(self)@.knows(session) {
                old(self)@.leave_messages(session, false)
            } else {
                Seq::<Addressed>::empty()
            },
    {
        if session >= self.sessions.len() || !self.sessions[session].connected {
            let out: Vec<Outgoing> = Vec::new();
            assert(addressed(out@) =~= Seq::<Addressed>::empty());
            return out;
        }
        self.leave(session, false)
    }

    /// The counters as they stand.
    pub fn stats(&self) -> (stats: Stats)
        requires
            self.wf(),
        ensures
            stats == stats_of(self@),
    {
        let started: usize = self.games_started;
        let ended: usize = self.games_completed.saturating_add(self.games_terminated);
        Stats {
            current_connected: self.admission.limit() - self.admission.free(),
            total_connected: self.sessions.len(),
            running_games: if started >= ended
                && self.games_completed <= usize::MAX - self.games_terminated {
                started - ended
            } else {
                0
            },
            games_started: self.games_started,
            games_completed: self.games_completed,
            games_terminated: self.games_terminated,
            total_tricks: self.total_tricks,
            max_connections: self.admission.limit(),
        }
    }

    /// How many sessions were ever opened.
    pub fn session_count(&self) -> (n: usize)
        ensures
            n == self@.sessions.len(),
    {
        self.sessions.len()
    }

    /// How many games were ever opened.
    pub fn game_count(&self) -> (n: usize)
        ensures
            n == self@.games.len(),
    {
        self.games.len()
    }

    /// The session with the given number.
    pub fn session(&self, id: usize) -> (session: Option<&ClientSession>)
        ensures
            session is Some <==> id < self@.sessions.len(),
            session is Some ==> session->Some_0@ == self@.sessions[id as int],
    {
        if id < self.sessions.len() {
            Some(&self.sessions[id])
        } else {
            None
        }
    }

    /// The game with the given number.
    pub fn game(&self, id: usize) -> (game: Option<&GameInfo>)
        ensures
            game is Some <==> id < self@.games.len(),
            game is Some ==> game->Some_0@ == self@.games[id as int],
    {
        if id < self.games.len() {
            Some(&self.games[id])
        } else {
            None
        }
    }
}

} // verus!
