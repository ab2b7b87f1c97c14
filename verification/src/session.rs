//! One client's session: who it is, which game it joined, where it sits
//! and what it holds.

use crate::card::Card;
use vstd::prelude::*;

verus! {

/// Where a session stands.
#[derive(Clone, Copy, Debug, PartialEq, Eq, Structural)]
pub enum SessionState {
    Idle,
    Waiting,
    Ready,
    Playing,
    Completed,
}

/// A session as plain values.
pub struct SessionView {
    pub name: Seq<char>,
    pub connected: bool,
    pub state: SessionState,
    pub game: Option<usize>,
    pub seat: usize,
    pub hand: Seq<Card>,
}

impl SessionView {
    /// Whether the session sits in a game that is not over.
    pub open spec fn is_seated(self) -> bool {
        self.state is Waiting || self.state is Ready || self.state is Playing
    }

    /// Whether the session sits in the game `game` and that game is not over.
    pub open spec fn sits_in(self, game: int) -> bool {
        self.is_seated() && self.game == Some(game as usize)
    }
}

/// The session of a client that just connected.
pub open spec fn fresh_session(name: Seq<char>) -> SessionView {
    SessionView {
        name,
        connected: true,
        state: SessionState::Idle,
        game: None,
        seat: 0,
        hand: Seq::empty(),
    }
}

/// One client's session.
#[derive(Debug)]
pub struct ClientSession {
    pub name: String,
    pub connected: bool,
    pub state: SessionState,
    pub game: Option<usize>,
    pub seat: usize,
    pub hand: Vec<Card>,
}

impl View for ClientSession {
    type V = SessionView;

    open spec fn view(&self) -> SessionView {
        SessionView {
            name: self.name@,
            connected: self.connected,
            state: self.state,
            game: self.game,
            seat: self.seat,
            hand: self.hand@,
        }
    }
}

impl ClientSession {
    /// The session of a client that just connected: idle, in no game, with
    /// an empty hand.
    pub fn new(name: String) -> (session: ClientSession)
        ensures
            session@ == fresh_session(name@),
    {
        let session = ClientSession {
            name,
            connected: true,
            state: SessionState::Idle,
            game: None,
            seat: 0,
            hand: Vec::new(),
        };
        assert(session.hand@ =~= Seq::<Card>::empty());
        session
    }

    /// Whether the session sits in a game that is not over.
    pub fn is_seated(&self) -> (seated: bool)
        ensures
            seated == self@.is_seated(),
    {
        match self.state {
            SessionState::Waiting => true,
            SessionState::Ready => true,
            SessionState::Playing => true,
            _ => false,
        }
    }
}

} // verus!
