//! One game at one table: seating, readiness, turn order, the cards on the
//! table, trick resolution and the score.

use crate::card::{Card, Suit};
use vstd::prelude::*;

verus! {

/// Seats at a table.
pub const SEATS: usize = 4;

/// Where a game stands.
#[derive(Clone, Copy, Debug, PartialEq, Eq, Structural)]
pub enum GameState {
    Waiting,
    Ready,
    Playing,
    Completed,
}

/// The two sides: seats 0 and 2 against seats 1 and 3.
#[derive(Clone, Copy, Debug, PartialEq, Eq, Structural)]
pub enum Team {
    One,
    Two,
}

/// Why a play was turned down.
#[derive(Clone, Copy, Debug, PartialEq, Eq, Structural)]
pub enum PlayError {
    /// The game is not being played.
    NotPlaying,
    /// It is another seat's turn.
    OutOfTurn,
    /// The card is not in the player's hand.
    NotHeld,
}

/// What a play led to.
#[derive(Clone, Copy, Debug, PartialEq, Eq, Structural)]
pub enum PlayResult {
    /// Nothing changed.
    Rejected(PlayError),
    /// The card lies on the table and the trick goes on.
    Placed,
    /// The card completed a trick, which `winner` took.
    TrickTaken { winner: usize },
    /// The card completed the last trick, which `winner` took; `team` wins the game.
    GameFinished { winner: usize, team: Team },
}

/// What marking a player ready led to.
#[derive(Clone, Copy, Debug, PartialEq, Eq, Structural)]
pub enum ReadyResult {
    /// The game takes no readiness now; nothing changed.
    Refused,
    /// Counted; the table still waits for others.
    Counted,
    /// Counted, and with it every seat is ready.
    AllReady,
}

/// The team of a seat: even seats are team one, odd seats team two.
pub open spec fn team_of(seat: int) -> Team {
    if seat % 2 == 0 {
        Team::One
    } else {
        Team::Two
    }
}

/// Whether a slot holds a card of the given suit.
pub open spec fn follows(slot: Option<Card>, suit: Suit) -> bool {
    slot is Some && slot->Some_0.suit == suit
}

/// Whether seat `w` wins the trick on the table: its card is of the leading
/// suit, and no card of the leading suit is stronger. Cards of other suits
/// do not count, whatever their strength. Between equal cards the lower
/// seat wins.
pub open spec fn is_trick_winner(slots: Seq<Option<Card>>, suit: Suit, w: int) -> bool {
    &&& 0 <= w < slots.len()
    &&& follows(slots[w], suit)
    &&& forall|k: int|
        0 <= k < slots.len() && follows(#[trigger] slots[k], suit) ==> slots[k]->Some_0.rank
            < slots[w]->Some_0.rank || (slots[k]->Some_0.rank == slots[w]->Some_0.rank && w <= k)
}

/// The seat that wins the trick on the table.
pub open spec fn winner_of(slots: Seq<Option<Card>>, suit: Suit) -> int {
    choose|w: int| is_trick_winner(slots, suit, w)
}

/// A trick has at most one winner.
pub proof fn lemma_winner_unique(slots: Seq<Option<Card>>, suit: Suit, a: int, b: int)
    requires
        is_trick_winner(slots, suit, a),
        is_trick_winner(slots, suit, b),
    ensures
        a == b,
{
    assert(follows(slots[a], suit));
    assert(follows(slots[b], suit));
}

/// The winner of a trick always holds a card of the leading suit, even
/// where another seat played a stronger card of another suit.
pub proof fn lemma_winner_follows_suit(slots: Seq<Option<Card>>, suit: Suit, seat: int)
    requires
        0 <= seat < slots.len(),
        follows(slots[seat], suit),
    ensures
        is_trick_winner(slots, suit, winner_of(slots, suit)),
        0 <= winner_of(slots, suit) < slots.len(),
        slots[winner_of(slots, suit)] is Some,
        slots[winner_of(slots, suit)]->Some_0.suit == suit,
        forall|k: int|
            0 <= k < slots.len() && follows(#[trigger] slots[k], suit) ==> slots[k]->Some_0.rank
                <= slots[winner_of(slots, suit)]->Some_0.rank,
{
    lemma_winner_exists(slots, suit, slots.len());
    let w = best_upto(slots, suit, slots.len());
    assert(slots.take(slots.len() as int) =~= slots);
    assert(follows(slots[seat], suit));
    assert(is_trick_winner(slots, suit, w));
}

/// The best seat among the first `n`: -1 while none of them follows suit.
spec fn best_upto(slots: Seq<Option<Card>>, suit: Suit, n: nat) -> int
    decreases n,
{
    if n == 0 {
        -1
    } else {
        let prev = best_upto(slots, suit, (n - 1) as nat);
        let k = n - 1;
        if follows(slots[k], suit) && (prev < 0 || slots[k]->Some_0.rank
            > slots[prev]->Some_0.rank) {
            k
        } else {
            prev
        }
    }
}

/// The best seat among the first `n` wins the trick that these seats laid.
proof fn lemma_winner_exists(slots: Seq<Option<Card>>, suit: Suit, n: nat)
    requires
        n <= slots.len(),
    ensures
        ({
            let w = best_upto(slots, suit, n);
            &&& -1 <= w < n
            &&& w < 0 ==> forall|k: int| 0 <= k < n ==> !follows(#[trigger] slots[k], suit)
            &&& w >= 0 ==> is_trick_winner(slots.take(n as int), suit, w)
        }),
    decreases n,
{
    if n > 0 {
        lemma_winner_exists(slots, suit, (n - 1) as nat);
        let prev = best_upto(slots, suit, (n - 1) as nat);
        let w = best_upto(slots, suit, n);
        let shorter = slots.take(n - 1);
        let longer = slots.take(n as int);
        if w >= 0 {
            assert forall|k: int| 0 <= k < longer.len() && follows(#[trigger] longer[k], suit)
                implies longer[k]->Some_0.rank < longer[w]->Some_0.rank || (longer[k]->Some_0.rank
                == longer[w]->Some_0.rank && w <= k) by {
                if k < n - 1 {
                    assert(shorter[k] == longer[k]);
                    assert(follows(shorter[k], suit));
                }
            }
        }
    }
}

/// Finds the winner of the trick on the table.
pub fn trick_winner(slots: &Vec<Option<Card>>, suit: Suit) -> (winner: usize)
    requires
        exists|k: int| 0 <= k < slots@.len() && follows(#[trigger] slots@[k], suit),
    ensures
        is_trick_winner(slots@, suit, winner as int),
        winner == winner_of(slots@, suit),
        slots@[winner as int]->Some_0.suit == suit,
{
    let mut best: usize = 0;
    let mut found: bool = false;
    let mut k: usize = 0;
    while k < slots.len()
        invariant
            k <= slots@.len(),
            found ==> best < k,
            (if found {
                best as int
            } else {
                -1
            }) == best_upto(slots@, suit, k as nat),
        decreases slots@.len() - k,
    {
        match slots[k] {
            Some(card) => {
                if card.suit == suit {
                    if !found {
                        best = k;
                        found = true;
                    } else {
                        match slots[best] {
                            Some(top) => {
                                if card.rank > top.rank {
                                    best = k;
                                }
                            },
                            None => {},
                        }
                    }
                }
            },
            None => {},
        }
        k += 1;
        proof {
            lemma_winner_exists(slots@, suit, (k - 1) as nat);
            if best_upto(slots@, suit, (k - 1) as nat) >= 0 {
                let prev = best_upto(slots@, suit, (k - 1) as nat);
                assert(follows(slots@.take(k - 1)[prev], suit));
            }
        }
    }
    proof {
        let seat = choose|k: int| 0 <= k < slots@.len() && follows(#[trigger] slots@[k], suit);
        lemma_winner_exists(slots@, suit, slots@.len());
        assert(slots@.take(slots@.len() as int) =~= slots@);
        assert(follows(slots@[seat], suit));
        lemma_winner_follows_suit(slots@, suit, seat);
        lemma_winner_unique(slots@, suit, best as int, winner_of(slots@, suit));
    }
    best
}

/// The position of the first copy of a card in a hand.
pub open spec fn first_index(hand: Seq<Card>, card: Card) -> int {
    choose|i: int|
        0 <= i < hand.len() && hand[i] == card && forall|j: int| 0 <= j < i ==> hand[j] != card
}

/// The hand with the first copy of a card taken out; the hand itself where
/// it holds no such card.
pub open spec fn without(hand: Seq<Card>, card: Card) -> Seq<Card> {
    if hand.contains(card) {
        hand.remove(first_index(hand, card))
    } else {
        hand
    }
}

/// Finds the first copy of a card in a hand.
pub fn find_card(hand: &Vec<Card>, card: Card) -> (found: Option<usize>)
    ensures
        found is Some <==> hand@.contains(card),
        found is Some ==> found->Some_0 == first_index(hand@, card) && found->Some_0 < hand@.len()
            && hand@[found->Some_0 as int] == card,
{
    let mut i: usize = 0;
    while i < hand.len()
        invariant
            i <= hand@.len(),
            forall|j: int| 0 <= j < i ==> hand@[j] != card,
        decreases hand@.len() - i,
    {
        if hand[i] == card {
            proof {
                let f = first_index(hand@, card);
                assert(0 <= f < hand@.len() && hand@[f] == card && forall|j: int|
                    0 <= j < f ==> hand@[j] != card);
            }
            return Some(i);
        }
        i += 1;
    }
    None
}

/// Taking a card out of a hand that holds it removes exactly one copy, and
/// nothing else changes.
pub proof fn lemma_without_removes_one(hand: Seq<Card>, card: Card)
    requires
        hand.contains(card),
    ensures
        without(hand, card).len() == hand.len() - 1,
        without(hand, card).to_multiset() == hand.to_multiset().remove(card),
{
    let i = choose|i: int| 0 <= i < hand.len() && hand[i] == card;
    lemma_first_index(hand, card, i);
    vstd::seq_lib::to_multiset_remove(hand, first_index(hand, card));
}

/// A hand that holds a card at `at` holds its first copy at or before `at`.
proof fn lemma_first_index(hand: Seq<Card>, card: Card, at: int)
    requires
        0 <= at < hand.len(),
        hand[at] == card,
    ensures
        0 <= first_index(hand, card) <= at,
        hand[first_index(hand, card)] == card,
    decreases at,
{
    if exists|j: int| 0 <= j < at && hand[j] == card {
        let j = choose|j: int| 0 <= j < at && hand[j] == card;
        lemma_first_index(hand, card, j);
    } else {
        assert(0 <= at < hand.len() && hand[at] == card && forall|j: int|
            0 <= j < at ==> hand[j] != card);
    }
}

/// The state of a game as plain values.
pub struct GameView {
    pub name: Seq<char>,
    pub state: GameState,
    pub players: Seq<usize>,
    pub ready_count: usize,
    pub turn: usize,
    pub leader: usize,
    pub suit: Option<Suit>,
    pub slots: Seq<Option<Card>>,
    pub trick_count: usize,
    pub team_one: usize,
    pub team_two: usize,
    pub tricks_left: usize,
}

/// Whether `seat` has played in a trick that `leader` opened and that holds
/// `count` cards: turns go round the table from the leader.
pub open spec fn has_played(leader: usize, count: usize, seat: int) -> bool {
    (seat + SEATS - leader) % (SEATS as int) < count
}

/// A table without cards.
pub open spec fn empty_table() -> Seq<Option<Card>> {
    Seq::new(SEATS as nat, |i: int| None::<Card>)
}

impl GameView {
    /// The invariant of a game.
    pub open spec fn wf(self) -> bool {
        &&& self.players.len() <= SEATS
        &&& self.players.no_duplicates()
        &&& self.ready_count <= self.players.len()
        &&& self.slots.len() == SEATS
        &&& self.turn < SEATS
        &&& self.leader < SEATS
        &&& self.trick_count < SEATS
        &&& self.turn == (self.leader + self.trick_count) % (SEATS as int)
        &&& forall|seat: int|
            0 <= seat < SEATS ==> ((#[trigger] self.slots[seat]) is Some <==> has_played(
                self.leader,
                self.trick_count,
                seat,
            ))
        &&& self.suit is Some <==> self.trick_count > 0
        &&& self.suit is Some ==> follows(self.slots[self.leader as int], self.suit->Some_0)
        &&& self.team_one + self.team_two + self.tricks_left <= usize::MAX
        &&& self.state is Waiting ==> self.ready_count < SEATS && self.trick_count == 0
        &&& self.state is Ready ==> self.ready_count == SEATS && self.trick_count == 0
        &&& self.state is Playing ==> self.ready_count == SEATS && self.tricks_left > 0
    }

    /// Whether a new player can sit down: the game waits, a seat is free
    /// and the player does not sit there yet.
    pub open spec fn can_join(self, session: usize) -> bool {
        self.state is Waiting && self.players.len() < SEATS && !self.players.contains(session)
    }

    /// The game with `session` at the next free seat.
    pub open spec fn joined(self, session: usize) -> GameView {
        GameView { players: self.players.push(session), ..self }
    }

    /// What marking one more player ready leads to.
    pub open spec fn ready_result(self) -> ReadyResult {
        if !(self.state is Waiting) || self.ready_count >= self.players.len() {
            ReadyResult::Refused
        } else if self.ready_count + 1 == SEATS {
            ReadyResult::AllReady
        } else {
            ReadyResult::Counted
        }
    }

    /// The game with one more player counted as ready.
    pub open spec fn readied(self) -> GameView {
        match self.ready_result() {
            ReadyResult::Refused => self,
            ReadyResult::Counted => GameView {
                ready_count: (self.ready_count + 1) as usize,
                ..self
            },
            ReadyResult::AllReady => GameView {
                ready_count: SEATS,
                state: GameState::Ready,
                ..self
            },
        }
    }

    /// The game with play begun: seat 0 leads, nothing is scored, and
    /// `hand_size` tricks are to be played.
    pub open spec fn started(self, hand_size: usize) -> GameView {
        GameView {
            state: GameState::Playing,
            turn: 0,
            leader: 0,
            team_one: 0,
            team_two: 0,
            tricks_left: hand_size,
            ..self
        }
    }

    /// The game ended where it stands.
    pub open spec fn aborted(self) -> GameView {
        GameView { state: GameState::Completed, ..self }
    }

    /// Whether the game takes a card from `seat` now.
    pub open spec fn accepts(self, seat: usize) -> bool {
        self.state is Playing && seat == self.turn
    }

    /// The game with the card of `seat` laid on the table.
    pub open spec fn placed(self, seat: usize, card: Card) -> GameView {
        GameView {
            slots: self.slots.update(seat as int, Some(card)),
            suit: if self.trick_count == 0 {
                Some(card.suit)
            } else {
                self.suit
            },
            leader: if self.trick_count == 0 {
                seat
            } else {
                self.leader
            },
            trick_count: (self.trick_count + 1) as usize,
            turn: ((seat + 1) % (SEATS as int)) as usize,
            ..self
        }
    }

    /// The seat that takes the trick lying on the table.
    pub open spec fn trick_winner(self) -> int {
        winner_of(self.slots, self.suit->Some_0)
    }

    /// The game with the trick on the table resolved: the winner's team
    /// scores, the table is cleared, the winner leads next, and with the
    /// last trick the game is over.
    pub open spec fn resolved(self) -> GameView {
        let w = self.trick_winner();
        GameView {
            team_one: if team_of(w) == Team::One {
                (self.team_one + 1) as usize
            } else {
                self.team_one
            },
            team_two: if team_of(w) == Team::Two {
                (self.team_two + 1) as usize
            } else {
                self.team_two
            },
            tricks_left: (self.tricks_left - 1) as usize,
            slots: empty_table(),
            suit: None,
            trick_count: 0,
            turn: w as usize,
            leader: w as usize,
            state: if self.tricks_left == 1 {
                GameState::Completed
            } else {
                self.state
            },
            ..self
        }
    }

    /// Whether a card from the seat whose turn it is completes the trick.
    pub open spec fn completes_trick(self) -> bool {
        self.trick_count + 1 == SEATS
    }

    /// The game after a card from `seat` was taken.
    pub open spec fn after_play(self, seat: usize, card: Card) -> GameView {
        if self.completes_trick() {
            self.placed(seat, card).resolved()
        } else {
            self.placed(seat, card)
        }
    }

    /// The side that is ahead; with equal scores, team two.
    pub open spec fn leading_team(self) -> Team {
        if self.team_one > self.team_two {
            Team::One
        } else {
            Team::Two
        }
    }

    /// Why a play is turned down, if it is.
    pub open spec fn play_error(self, seat: usize, card: Card, hand: Seq<Card>) -> Option<
        PlayError,
    > {
        if !(self.state is Playing) {
            Some(PlayError::NotPlaying)
        } else if seat != self.turn {
            Some(PlayError::OutOfTurn)
        } else if !hand.contains(card) {
            Some(PlayError::NotHeld)
        } else {
            None
        }
    }

    /// What a play leads to.
    pub open spec fn play_result(self, seat: usize, card: Card, hand: Seq<Card>) -> PlayResult {
        match self.play_error(seat, card, hand) {
            Some(error) => PlayResult::Rejected(error),
            None => if !self.completes_trick() {
                PlayResult::Placed
            } else if self.tricks_left == 1 {
                PlayResult::GameFinished {
                    winner: self.placed(seat, card).trick_winner() as usize,
                    team: self.after_play(seat, card).leading_team(),
                }
            } else {
                PlayResult::TrickTaken { winner: self.placed(seat, card).trick_winner() as usize }
            },
        }
    }
}

/// The table while a trick is being laid: with the card of the seat whose
/// turn it is added, the leader's card is of the leading suit and lies on
/// the table, so the trick has a winner once it is full.
pub proof fn lemma_placed(g: GameView, seat: usize, card: Card)
    requires
        g.wf(),
        g.accepts(seat),
    ensures
        ({
            let p = g.placed(seat, card);
            &&& p.suit is Some
            &&& p.leader < SEATS
            &&& follows(p.slots[p.leader as int], p.suit->Some_0)
            &&& forall|s: int|
                0 <= s < SEATS ==> ((#[trigger] p.slots[s]) is Some <==> has_played(
                    p.leader,
                    p.trick_count,
                    s,
                ))
            &&& !g.completes_trick() ==> p.wf()
            &&& g.completes_trick() ==> 0 <= p.trick_winner() < SEATS && follows(
                p.slots[p.trick_winner()],
                p.suit->Some_0,
            ) && is_trick_winner(p.slots, p.suit->Some_0, p.trick_winner())
        }),
{
    let p = g.placed(seat, card);
    assert(seat == (g.leader + g.trick_count) % 4);
    assert forall|s: int| 0 <= s < SEATS implies ((#[trigger] p.slots[s]) is Some <==> has_played(
        p.leader,
        p.trick_count,
        s,
    )) by {
        if s != seat {
            assert(p.slots[s] == g.slots[s]);
            assert(g.slots[s] is Some <==> has_played(g.leader, g.trick_count, s));
        }
    }
    if g.trick_count > 0 {
        assert(g.slots[g.leader as int] is Some);
        assert(has_played(g.leader, g.trick_count, g.leader as int));
        assert(seat != g.leader);
    }
    if g.completes_trick() {
        lemma_winner_follows_suit(p.slots, p.suit->Some_0, p.leader as int);
    }
}

/// Taking a card from the seat whose turn it is keeps the game well formed.
pub proof fn lemma_after_play_wf(g: GameView, seat: usize, card: Card)
    requires
        g.wf(),
        g.accepts(seat),
    ensures
        g.after_play(seat, card).wf(),
{
    lemma_placed(g, seat, card);
    if g.completes_trick() {
        let p = g.placed(seat, card);
        let r = p.resolved();
        assert forall|s: int| 0 <= s < SEATS implies ((#[trigger] r.slots[s]) is Some
            <==> has_played(r.leader, r.trick_count, s)) by {}
    }
}

/// The game that a list of plays leads to; a play that the game does not
/// accept changes nothing.
pub open spec fn after_plays(g: GameView, plays: Seq<(usize, Card)>) -> GameView
    decreases plays.len(),
{
    if plays.len() == 0 {
        g
    } else {
        let before = after_plays(g, plays.drop_last());
        if before.accepts(plays.last().0) {
            before.after_play(plays.last().0, plays.last().1)
        } else {
            before
        }
    }
}

/// How many tricks a list of plays resolves.
pub open spec fn tricks_resolved(g: GameView, plays: Seq<(usize, Card)>) -> nat
    decreases plays.len(),
{
    if plays.len() == 0 {
        0
    } else {
        let before = after_plays(g, plays.drop_last());
        let earlier = tricks_resolved(g, plays.drop_last());
        if before.accepts(plays.last().0) && before.completes_trick() {
            earlier + 1
        } else {
            earlier
        }
    }
}

/// Whatever is played, the tricks of the two teams together are the tricks
/// resolved so far, and neither team's count ever goes down.
pub proof fn lemma_score_counts_tricks(g: GameView, plays: Seq<(usize, Card)>)
    requires
        g.wf(),
    ensures
        after_plays(g, plays).wf(),
        after_plays(g, plays).team_one + after_plays(g, plays).team_two == g.team_one + g.team_two
            + tricks_resolved(g, plays),
        after_plays(g, plays).team_one >= g.team_one,
        after_plays(g, plays).team_two >= g.team_two,
        after_plays(g, plays).tricks_left + tricks_resolved(g, plays) == g.tricks_left,
    decreases plays.len(),
{
    if plays.len() > 0 {
        lemma_score_counts_tricks(g, plays.drop_last());
        let before = after_plays(g, plays.drop_last());
        if before.accepts(plays.last().0) {
            lemma_after_play_wf(before, plays.last().0, plays.last().1);
            lemma_placed(before, plays.last().0, plays.last().1);
        }
    }
}

/// One game: who sits where, whose turn it is, what lies on the table, and
/// the score.
#[derive(Debug)]
pub struct GameInfo {
    pub name: String,
    pub state: GameState,
    pub players: Vec<usize>,
    pub ready_count: usize,
    pub turn: usize,
    pub leader: usize,
    pub suit: Option<Suit>,
    pub slots: Vec<Option<Card>>,
    pub trick_count: usize,
    pub team_one: usize,
    pub team_two: usize,
    pub tricks_left: usize,
}

impl View for GameInfo {
    type V = GameView;

    open spec fn view(&self) -> GameView {
        GameView {
            name: self.name@,
            state: self.state,
            players: self.players@,
            ready_count: self.ready_count,
            turn: self.turn,
            leader: self.leader,
            suit: self.suit,
            slots: self.slots@,
            trick_count: self.trick_count,
            team_one: self.team_one,
            team_two: self.team_two,
            tricks_left: self.tricks_left,
        }
    }
}

/// The state of a game that was just opened under a name.
pub open spec fn opened(name: Seq<char>) -> GameView {
    GameView {
        name,
        state: GameState::Waiting,
        players: Seq::empty(),
        ready_count: 0,
        turn: 0,
        leader: 0,
        suit: None,
        slots: empty_table(),
        trick_count: 0,
        team_one: 0,
        team_two: 0,
        tricks_left: 0,
    }
}

impl GameInfo {
    /// The invariant of a game.
    pub open spec fn wf(&self) -> bool {
        self@.wf()
    }

    /// Opens a game that waits for players.
    pub fn new(name: String) -> (game: GameInfo)
        ensures
            game@ == opened(name@),
            game.wf(),
    {
        let mut slots: Vec<Option<Card>> = Vec::new();
        let mut i: usize = 0;
        while i < SEATS
            invariant
                i <= SEATS,
                slots@.len() == i,
                forall|k: int| 0 <= k < i ==> slots@[k] == None::<Card>,
            decreases SEATS - i,
        {
            slots.push(None);
            i += 1;
        }
        let game = GameInfo {
            name,
            state: GameState::Waiting,
            players: Vec::new(),
            ready_count: 0,
            turn: 0,
            leader: 0,
            suit: None,
            slots,
            trick_count: 0,
            team_one: 0,
            team_two: 0,
            tricks_left: 0,
        };
        proof {
            assert(game.slots@ =~= empty_table());
            assert(game.players@ =~= Seq::<usize>::empty());
        }
        game
    }

    /// Whether `session` sits at this table.
    pub fn seat_of(&self, session: usize) -> (seat: Option<usize>)
        ensures
            seat is Some <==> self.players@.contains(session),
            seat is Some ==> seat->Some_0 < self.players@.len()
                && self.players@[seat->Some_0 as int] == session,
    {
        let mut i: usize = 0;
        while i < self.players.len()
            invariant
                i <= self.players@.len(),
                forall|j: int| 0 <= j < i ==> self.players@[j] != session,
            decreases self.players@.len() - i,
        {
            if self.players[i] == session {
                return Some(i);
            }
            i += 1;
        }
        None
    }

    /// Seats `session` at the next free seat and returns the seat. A game
    /// that does not wait for players, a full table, or a player who sits
    /// there already: nothing changes.
    pub fn join(&mut self, session: usize) -> (seat: Option<usize>)
        requires
            old(self).wf(),
        ensures
            final(self).wf(),
            seat is Some <==> old(self)@.can_join(session),
            seat is Some ==> seat->Some_0 == old(self).players@.len() && final(self)@ == old(
                self,
            )@.joined(session),
            seat is None ==> final(self)@ == old(self)@,
    {
        match self.state {
            GameState::Waiting => {},
            _ => {
                return None;
            },
        }
        if self.players.len() >= SEATS {
            return None;
        }
        if self.seat_of(session).is_some() {
            return None;
        }
        let seat: usize = self.players.len();
        self.players.push(session);
        Some(seat)
    }

    /// Counts one more seated player as ready. With the fourth the game
    /// becomes ready to start. A game that does not wait, or one whose
    /// seated players are all ready already, refuses.
    pub fn mark_ready(&mut self) -> (result: ReadyResult)
        requires
            old(self).wf(),
        ensures
            final(self).wf(),
            result == old(self)@.ready_result(),
            final(self)@ == old(self)@.readied(),
    {
        match self.state {
            GameState::Waiting => {},
            _ => {
                return ReadyResult::Refused;
            },
        }
        if self.ready_count >= self.players.len() {
            return ReadyResult::Refused;
        }
        self.ready_count = self.ready_count + 1;
        if self.ready_count == SEATS {
            self.state = GameState::Ready;
            ReadyResult::AllReady
        } else {
            ReadyResult::Counted
        }
    }

    /// Starts play in a game whose seats are all ready: seat 0 leads the
    /// first trick, the score is 0-0 and `hand_size` tricks are to be played.
    /// Any other game, or a start without tricks, changes nothing.
    pub fn start(&mut self, hand_size: usize) -> (started: bool)
        requires
            old(self).wf(),
        ensures
            final(self).wf(),
            started == (old(self).state is Ready && hand_size > 0),
            started ==> final(self)@ == old(self)@.started(hand_size),
            !started ==> final(self)@ == old(self)@,
    {
        match self.state {
            GameState::Ready => {},
            _ => {
                return false;
            },
        }
        if hand_size == 0 {
            return false;
        }
        self.state = GameState::Playing;
        self.turn = 0;
        self.leader = 0;
        self.team_one = 0;
        self.team_two = 0;
        self.tricks_left = hand_size;
        proof {
            assert forall|seat: int| 0 <= seat < SEATS implies ((#[trigger] self.slots@[seat])
                is Some <==> has_played(self.leader, self.trick_count, seat)) by {
                assert(old(self).slots@[seat] is Some <==> has_played(
                    old(self).leader,
                    old(self).trick_count,
                    seat,
                ));
            }
        }
        true
    }

    /// Ends the game where it stands.
    pub fn abort(&mut self)
        requires
            old(self).wf(),
        ensures
            final(self).wf(),
            final(self)@ == old(self)@.aborted(),
    {
        self.state = GameState::Completed;
    }

    /// The side that is ahead; with equal scores, team two.
    pub fn winning_team(&self) -> (team: Team)
        ensures
            team == self@.leading_team(),
    {
        if self.team_one > self.team_two {
            Team::One
        } else {
            Team::Two
        }
    }

    /// Takes a card from `seat`, out of the player's `hand`.
    ///
    /// The play is turned down, and nothing changes, unless the game is
    /// being played, it is the seat's turn and the hand holds the card.
    /// Otherwise the card leaves the hand and lies on the table; the first
    /// card of a trick fixes the leading suit. The fourth card resolves the
    /// trick: the strongest card of the leading suit wins, its seat's team
    /// scores and leads the next trick. With the last trick the game is
    /// completed and the side that is ahead wins; with equal scores, team two.
    pub fn play(&mut self, seat: usize, card: Card, hand: &mut Vec<Card>) -> (result: PlayResult)
        requires
            old(self).wf(),
        ensures
            final(self).wf(),
            result == old(self)@.play_result(seat, card, old(hand)@),
            result is Rejected ==> final(self)@ == old(self)@ && final(hand)@ == old(hand)@,
            !(result is Rejected) ==> final(self)@ == old(self)@.after_play(seat, card)
                && final(hand)@ == without(old(hand)@, card),
            result matches PlayResult::TrickTaken { winner } ==> winner < SEATS && follows(
                old(self)@.placed(seat, card).slots[winner as int],
                old(self)@.placed(seat, card).suit->Some_0,
            ),
            result matches PlayResult::GameFinished { winner, .. } ==> winner < SEATS && follows(
                old(self)@.placed(seat, card).slots[winner as int],
                old(self)@.placed(seat, card).suit->Some_0,
            ),
    {
        match self.state {
            GameState::Playing => {},
            _ => {
                return PlayResult::Rejected(PlayError::NotPlaying);
            },
        }
        if seat != self.turn {
            return PlayResult::Rejected(PlayError::OutOfTurn);
        }
        let at: usize = match find_card(hand, card) {
            Some(at) => at,
            None => {
                return PlayResult::Rejected(PlayError::NotHeld);
            },
        };
        proof {
            lemma_placed(old(self)@, seat, card);
            lemma_after_play_wf(old(self)@, seat, card);
        }
        hand.remove(at);
        self.slots[seat] = Some(card);
        if self.trick_count == 0 {
            self.suit = Some(card.suit);
            self.leader = seat;
        }
        self.trick_count = self.trick_count + 1;
        self.turn = (seat + 1) % SEATS;
        assert(self@ == old(self)@.placed(seat, card));
        if self.trick_count < SEATS {
            return PlayResult::Placed;
        }
        let leading: Suit = match self.suit {
            Some(suit) => suit,
            None => card.suit,
        };
        let winner: usize = trick_winner(&self.slots, leading);
        if winner % 2 == 0 {
            self.team_one = self.team_one + 1;
        } else {
            self.team_two = self.team_two + 1;
        }
        self.tricks_left = self.tricks_left - 1;
        self.clear_table();
        self.turn = winner;
        self.leader = winner;
        if self.tricks_left == 0 {
            self.state = GameState::Completed;
            let team = self.winning_team();
            PlayResult::GameFinished { winner, team }
        } else {
            PlayResult::TrickTaken { winner }
        }
    }

    /// Takes all cards off the table.
    fn clear_table(&mut self)
        requires
            old(self).slots@.len() == SEATS,
        ensures
            final(self)@ == (GameView {
                slots: empty_table(),
                suit: None,
                trick_count: 0,
                ..old(self)@
            }),
    {
        let mut i: usize = 0;
        while i < SEATS
            invariant
                i <= SEATS,
                self.slots@.len() == SEATS,
                forall|k: int| 0 <= k < i ==> self.slots@[k] == None::<Card>,
                self@ == (GameView { slots: self.slots@, ..old(self)@ }),
            decreases SEATS - i,
        {
            self.slots[i] = None;
            i += 1;
        }
        self.suit = None;
        self.trick_count = 0;
        assert(self.slots@ =~= empty_table());
    }
}

} // verus!
