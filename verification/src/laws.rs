//! What holds of the server whatever happens: every event keeps its
//! invariant, admission is bounded, a game is dealt a whole deck and loses
//! no card, and a player who leaves a game that is being played ends it for
//! everybody at the table exactly once.

use crate::admission::released;
use crate::card::Card;
use crate::deck::{
    fresh_deck, hand_of, hands_joined, lemma_full_deal, lemma_hand_bounds, lemma_shuffle_permutes,
    DECK_SIZE, RANKS,
};
use crate::game::{
    has_played, lemma_after_play_wf, lemma_placed, lemma_without_removes_one, opened, SEATS,
};
use crate::model::{
    bumped, connected_count, lemma_count_positive, lemma_count_push, lemma_count_same,
    lemma_count_update, to_all, ContextView,
};
use crate::protocol::{CommandView, MessageView};
use crate::session::{fresh_session, SessionView};
use vstd::prelude::*;

verus! {

/// A client that connects keeps the invariant; it gets a session exactly
/// when a permit is free.
pub proof fn lemma_connect_wf(c: ContextView, name: Seq<char>)
    requires
        c.wf(),
        c.sessions.len() < usize::MAX,
    ensures
        c.after_connect(name).wf(),
        c.free == 0 ==> c.after_connect(name) == c,
        c.free > 0 ==> c.after_connect(name).sessions.len() == c.sessions.len() + 1,
{
    let d = c.after_connect(name);
    if c.free > 0 {
        lemma_count_push(c.sessions, fresh_session(name));
        assert forall|i: int| 0 <= i < d.sessions.len() implies #[trigger] d.session_ok(i) by {
            if i < c.sessions.len() {
                assert(c.session_ok(i));
            }
        }
        assert forall|g: int, k: int|
            0 <= g < d.games.len() && 0 <= k < d.games[g].players.len()
                implies #[trigger] d.seat_ok(g, k) by {
            assert(c.seat_ok(g, k));
        }
    }
}

/// The first open game of a name is an open game of that name, and no
/// earlier one is.
pub proof fn lemma_open_game(c: ContextView, name: Seq<char>)
    requires
        c.games.len() <= usize::MAX,
    ensures
        c.open_game(name) is Some ==> c.is_open_named(c.open_game(name)->Some_0 as int, name)
            && forall|h: int|
            0 <= h < c.open_game(name)->Some_0 ==> !c.is_open_named(h, name),
        c.open_game(name) is None ==> forall|g: int| !c.is_open_named(g, name),
{
    if exists|g: int| c.is_open_named(g, name) {
        let g = choose|g: int| c.is_open_named(g, name);
        lemma_first_open(c, name, g);
    }
}

/// Where a game of a name is open, one of them is the first.
proof fn lemma_first_open(c: ContextView, name: Seq<char>, at: int)
    requires
        c.is_open_named(at, name),
    ensures
        exists|g: int|
            c.is_open_named(g, name) && forall|h: int| 0 <= h < g ==> !c.is_open_named(h, name),
    decreases at,
{
    if exists|h: int| 0 <= h < at && c.is_open_named(h, name) {
        let h = choose|h: int| 0 <= h < at && c.is_open_named(h, name);
        lemma_first_open(c, name, h);
    } else {
        assert(c.is_open_named(at, name) && forall|h: int|
            0 <= h < at ==> !c.is_open_named(h, name));
    }
}

/// A `JOIN` keeps the invariant.
pub proof fn lemma_join_wf(c: ContextView, session: usize, name: Seq<char>)
    requires
        c.wf(),
        c.knows(session),
        c.open_game(name) is None ==> c.games.len() < usize::MAX,
    ensures
        c.after_join(session, name).wf(),
{
    let d = c.after_join(session, name);
    if c.join_error(session, name) is None {
        lemma_open_game(c, name);
        let s = c.sessions[session as int];
        lemma_count_update(c.sessions, session as int, d.sessions[session as int]);
        match c.open_game(name) {
            Some(g) => {
                let game = c.games[g as int];
                assert(game.wf());
                assert(!game.players.contains(session)) by {
                    if game.players.contains(session) {
                        let k = choose|k: int|
                            0 <= k < game.players.len() && game.players[k] == session;
                        assert(c.seat_ok(g as int, k));
                    }
                }
                assert(game.joined(session).players.no_duplicates());
                assert forall|h: int| 0 <= h < d.games.len() implies (#[trigger] d.games[h]).wf()
                    && !(d.games[h].state is Ready) by {
                    assert(c.games[h].wf());
                }
                assert forall|i: int| 0 <= i < d.sessions.len() implies #[trigger] d.session_ok(
                    i,
                ) by {
                    assert(c.session_ok(i));
                }
                assert forall|h: int, k: int|
                    0 <= h < d.games.len() && 0 <= k < d.games[h].players.len()
                        implies #[trigger] d.seat_ok(h, k) by {
                    if h == g && k == game.players.len() {
                    } else {
                        assert(c.seat_ok(h, k));
                    }
                }
            },
            None => {
                let game = opened(name).joined(session);
                assert(game.players =~= seq![session]);
                assert(game.wf());
                assert forall|h: int| 0 <= h < d.games.len() implies (#[trigger] d.games[h]).wf()
                    && !(d.games[h].state is Ready) by {
                    if h < c.games.len() {
                        assert(c.games[h].wf());
                    }
                }
                assert forall|i: int| 0 <= i < d.sessions.len() implies #[trigger] d.session_ok(
                    i,
                ) by {
                    assert(c.session_ok(i));
                }
                assert forall|h: int, k: int|
                    0 <= h < d.games.len() && 0 <= k < d.games[h].players.len()
                        implies #[trigger] d.seat_ok(h, k) by {
                    if h < c.games.len() {
                        assert(c.seat_ok(h, k));
                    }
                }
            },
        }
    }
}

/// A game that is not over and the sessions that sit in it name each other.
pub proof fn lemma_linked(c: ContextView, g: int)
    requires
        c.wf(),
        0 <= g < c.games.len(),
        !(c.games[g].state is Completed),
    ensures
        c.linked(g),
{
    assert forall|k: int| 0 <= k < c.games[g].players.len() implies #[trigger] c.seat_linked(
        g,
        k,
    ) by {
        assert(c.seat_ok(g, k));
    }
    assert forall|j: int| 0 <= j < c.sessions.len() implies #[trigger] c.session_linked(g, j) by {
        assert(c.session_ok(j));
    }
}

/// Whether a game and its sessions name each other depends only on who
/// sits at the game's seats and on where each session says it sits.
pub proof fn lemma_linked_kept(a: ContextView, b: ContextView, g: int)
    requires
        a.linked(g),
        a.sessions.len() == b.sessions.len(),
        a.games[g].players == b.games[g].players,
        forall|j: int|
            0 <= j < a.sessions.len() ==> (#[trigger] a.sessions[j]).state == b.sessions[j].state
                && a.sessions[j].game == b.sessions[j].game && a.sessions[j].seat
                == b.sessions[j].seat,
    ensures
        b.linked(g),
{
    assert forall|k: int| 0 <= k < b.games[g].players.len() implies #[trigger] b.seat_linked(
        g,
        k,
    ) by {
        assert(a.seat_linked(g, k));
        let p = a.games[g].players[k];
        assert(a.sessions[p as int].state == b.sessions[p as int].state);
    }
    assert forall|j: int| 0 <= j < b.sessions.len() implies #[trigger] b.session_linked(g, j) by {
        assert(a.session_linked(g, j));
        assert(a.sessions[j].state == b.sessions[j].state);
    }
}

/// What becomes of the sessions of a table depends on the sessions alone.
pub proof fn lemma_become_same(
    a: ContextView,
    b: ContextView,
    g: int,
    state: crate::session::SessionState,
    hands: Option<Seq<Seq<Card>>>,
)
    requires
        a.sessions == b.sessions,
    ensures
        a.seated_become(g, state, hands) == b.seated_become(g, state, hands),
{
    assert(a.seated_become(g, state, hands) =~= b.seated_become(g, state, hands));
}

/// A seated session sits in a game that is not over, at a seat of it.
pub proof fn lemma_seated(c: ContextView, session: usize)
    requires
        c.wf(),
        session < c.sessions.len(),
        c.sessions[session as int].is_seated(),
    ensures
        0 <= c.game_of(session) < c.games.len(),
        c.sessions[session as int].game == Some(c.game_of(session) as usize),
        c.sessions[session as int].sits_in(c.game_of(session)),
        c.games[c.game_of(session)].wf(),
        !(c.games[c.game_of(session)].state is Completed),
        !(c.games[c.game_of(session)].state is Ready),
        c.sessions[session as int].state is Playing <==> c.games[c.game_of(session)].state
            is Playing,
        c.sessions[session as int].seat < c.games[c.game_of(session)].players.len(),
        c.games[c.game_of(session)].players[c.sessions[session as int].seat as int] == session,
        c.linked(c.game_of(session)),
{
    assert(c.session_ok(session as int));
    lemma_linked(c, c.game_of(session));
}

/// A `READY` keeps the invariant.
pub proof fn lemma_ready_wf(c: ContextView, session: usize)
    requires
        c.wf(),
        c.knows(session),
    ensures
        c.after_ready(session).wf(),
{
    let d = c.after_ready(session);
    if c.ready_error(session) is None {
        let s = c.sessions[session as int];
        let g = c.game_of(session);
        assert(c.session_ok(session as int));
        let game = c.games[g];
        assert(game.wf());
        if !c.starts_game(session) {
            lemma_count_update(c.sessions, session as int, d.sessions[session as int]);
            assert forall|h: int| 0 <= h < d.games.len() implies (#[trigger] d.games[h]).wf() && !(
            d.games[h].state is Ready) by {
                assert(c.games[h].wf());
            }
            assert forall|i: int| 0 <= i < d.sessions.len() implies #[trigger] d.session_ok(i) by {
                assert(c.session_ok(i));
            }
            assert forall|h: int, k: int|
                0 <= h < d.games.len() && 0 <= k < d.games[h].players.len()
                    implies #[trigger] d.seat_ok(h, k) by {
                assert(c.seat_ok(h, k));
            }
        } else {
            lemma_count_same(c.sessions, d.sessions);
            lemma_shuffle_permutes(fresh_deck(), c.source, DECK_SIZE as nat);
            let started = game.readied().started(RANKS);
            assert(started.wf()) by {
                assert forall|seat: int| 0 <= seat < SEATS implies ((
                #[trigger] started.slots[seat]) is Some <==> has_played(
                    started.leader,
                    started.trick_count,
                    seat,
                )) by {
                    assert(game.slots[seat] is Some <==> has_played(
                        game.leader,
                        game.trick_count,
                        seat,
                    ));
                }
            }
            assert forall|h: int| 0 <= h < d.games.len() implies (#[trigger] d.games[h]).wf() && !(
            d.games[h].state is Ready) by {
                assert(c.games[h].wf());
            }
            assert forall|i: int| 0 <= i < d.sessions.len() implies #[trigger] d.session_ok(i) by {
                assert(c.session_ok(i));
            }
            assert forall|h: int, k: int|
                0 <= h < d.games.len() && 0 <= k < d.games[h].players.len()
                    implies #[trigger] d.seat_ok(h, k) by {
                assert(c.seat_ok(h, k));
                if h == g {
                    lemma_hand_bounds(DECK_SIZE as int, SEATS as int, k);
                    assert(game.slots[k] is Some <==> has_played(
                        game.leader,
                        game.trick_count,
                        k,
                    ));
                } else {
                    let p = c.games[h].players[k];
                    if !(c.games[h].state is Completed) {
                        assert(c.sessions[p as int].sits_in(h));
                        assert(!c.sessions[p as int].sits_in(g));
                    }
                }
            }
        }
    }
}

/// After a `PLAY` that was taken, every session is still in order.
proof fn lemma_play_session_ok(c: ContextView, session: usize, card: Card, i: int)
    requires
        c.wf(),
        c.knows(session),
        c.play_error(session, card) is None,
        0 <= i < c.sessions.len(),
    ensures
        c.after_play(session, card).session_ok(i),
{
    let d = c.after_play(session, card);
    let s = c.sessions[session as int];
    let g = c.game_of(session);
    assert(c.session_ok(session as int));
    assert(c.session_ok(i));
    let t = c.sessions[i];
    if t.is_seated() && t.game->Some_0 as int != g {
        assert(d.games[t.game->Some_0 as int] == c.games[t.game->Some_0 as int]);
    }
}

/// After a `PLAY` that was taken, every seat is still in order.
proof fn lemma_play_seat_ok(c: ContextView, session: usize, card: Card, h: int, k: int)
    requires
        c.wf(),
        c.knows(session),
        c.play_error(session, card) is None,
        0 <= h < c.games.len(),
        0 <= k < c.games[h].players.len(),
    ensures
        c.after_play(session, card).seat_ok(h, k),
{
    let d = c.after_play(session, card);
    let s = c.sessions[session as int];
    let g = c.game_of(session);
    assert(c.session_ok(session as int));
    let game = c.games[g];
    assert(game.wf());
    assert(c.seat_ok(h, k));
    if h == g {
        assert(c.seat_ok(g, s.seat as int));
        lemma_placed(game, s.seat, card);
        lemma_without_removes_one(s.hand, card);
        let p = game.players[k];
        if k != s.seat {
            assert(p != session);
        }
        let placed = game.placed(s.seat, card);
        assert(placed.slots[k] is Some <==> has_played(placed.leader, placed.trick_count, k));
        assert(game.slots[k] is Some <==> has_played(game.leader, game.trick_count, k));
        if game.completes_trick() {
            assert(has_played(placed.leader, placed.trick_count, k));
        }
    } else {
        let p = c.games[h].players[k];
        assert(d.games[h] == c.games[h]);
        if !(c.games[h].state is Completed) {
            assert(c.sessions[p as int].sits_in(h));
            assert(p != session);
            assert(!c.sessions[p as int].sits_in(g));
        }
    }
}

/// A `PLAY` keeps the invariant.
pub proof fn lemma_play_wf(c: ContextView, session: usize, card: Card)
    requires
        c.wf(),
        c.knows(session),
    ensures
        c.after_play(session, card).wf(),
{
    let d = c.after_play(session, card);
    if c.play_error(session, card) is None {
        let s = c.sessions[session as int];
        let g = c.game_of(session);
        assert(c.session_ok(session as int));
        let game = c.games[g];
        assert(game.wf());
        lemma_after_play_wf(game, s.seat, card);
        lemma_count_same(c.sessions, d.sessions);
        assert forall|h: int| 0 <= h < d.games.len() implies (#[trigger] d.games[h]).wf() && !(
        d.games[h].state is Ready) by {
            assert(c.games[h].wf());
        }
        assert forall|i: int| 0 <= i < d.sessions.len() implies #[trigger] d.session_ok(i) by {
            lemma_play_session_ok(c, session, card, i);
        }
        assert forall|h: int, k: int|
            0 <= h < d.games.len() && 0 <= k < d.games[h].players.len()
                implies #[trigger] d.seat_ok(h, k) by {
            lemma_play_seat_ok(c, session, card, h, k);
        }
    }
}

/// A session that leaves keeps the invariant.
pub proof fn lemma_leave_wf(c: ContextView, session: usize)
    requires
        c.wf(),
        c.knows(session),
    ensures
        c.after_leave(session).wf(),
        c.after_leave(session).free == c.free + 1,
{
    let d = c.after_leave(session);
    let s = c.sessions[session as int];
    let g = c.game_of(session);
    assert(c.session_ok(session as int));
    lemma_count_positive(c.sessions, session as int);
    assert(released(c.free, c.capacity) == c.free + 1);
    let marked = c.sessions.update(
        session as int,
        SessionView { connected: false, ..c.sessions[session as int] },
    );
    lemma_count_update(c.sessions, session as int, marked[session as int]);
    lemma_count_same(marked, d.sessions);
    assert forall|h: int| 0 <= h < d.games.len() implies (#[trigger] d.games[h]).wf() && !(
    d.games[h].state is Ready) by {
        assert(c.games[h].wf());
    }
    assert forall|i: int| 0 <= i < d.sessions.len() implies #[trigger] d.session_ok(i) by {
        assert(c.session_ok(i));
    }
    assert forall|h: int, k: int|
        0 <= h < d.games.len() && 0 <= k < d.games[h].players.len() implies #[trigger] d.seat_ok(
        h,
        k,
    ) by {
        assert(c.seat_ok(h, k));
        let p = c.games[h].players[k];
        if !(c.games[h].state is Completed) && !(s.is_seated() && h == g) {
            assert(c.sessions[p as int].sits_in(h));
            assert(p != session);
        }
    }
}

/// Every command from a connected session keeps the invariant.
pub proof fn lemma_command_wf(c: ContextView, session: usize, command: CommandView)
    requires
        c.wf(),
        c.games.len() < usize::MAX,
    ensures
        c.after_command(session, command).wf(),
{
    if c.knows(session) {
        match command {
            CommandView::Join(name) => lemma_join_wf(c, session, name),
            CommandView::Ready => lemma_ready_wf(c, session),
            CommandView::Play(card) => lemma_play_wf(c, session, card),
            CommandView::Exit => lemma_leave_wf(c, session),
            CommandView::Malformed => {},
        }
    }
}

/// Never more sessions are connected than permits exist.
pub proof fn lemma_bounded_connections(c: ContextView)
    requires
        c.wf(),
    ensures
        connected_count(c.sessions) <= c.capacity,
{
}

/// The server after clients asked to connect one after the other.
pub open spec fn after_connects(c: ContextView, names: Seq<Seq<char>>) -> ContextView
    decreases names.len(),
{
    if names.len() == 0 {
        c
    } else {
        after_connects(c, names.drop_last()).after_connect(names.last())
    }
}

/// Of clients that ask to connect one after the other, as many get a
/// session as permits are free, and no more: each of the first takes one
/// permit, and whoever comes after them changes nothing.
pub proof fn lemma_connects_fill(c: ContextView, names: Seq<Seq<char>>)
    requires
        c.wf(),
        c.sessions.len() + names.len() <= usize::MAX,
    ensures
        after_connects(c, names).wf(),
        names.len() <= c.free ==> after_connects(c, names).free == c.free - names.len()
            && after_connects(c, names).sessions.len() == c.sessions.len() + names.len(),
        names.len() >= c.free ==> after_connects(c, names).free == 0 && after_connects(
            c,
            names,
        ).sessions.len() == c.sessions.len() + c.free,
    decreases names.len(),
{
    if names.len() > 0 {
        lemma_connects_fill(c, names.drop_last());
        lemma_connect_wf(after_connects(c, names.drop_last()), names.last());
    }
}

/// With every permit taken, a client that asks to connect is turned away
/// and gets no session; once one connected session has left, exactly one
/// more client gets in: the next is admitted and the one after it is
/// turned away again.
pub proof fn lemma_admission(c: ContextView, leaving: usize, first: Seq<char>, second: Seq<char>)
    requires
        c.wf(),
        c.free == 0,
        c.knows(leaving),
        c.sessions.len() < usize::MAX,
    ensures
        c.after_connect(first) == c,
        c.after_leave(leaving).after_connect(first).sessions.len() == c.sessions.len() + 1,
        c.after_leave(leaving).after_connect(first).after_connect(second) == c.after_leave(
            leaving,
        ).after_connect(first),
{
    lemma_leave_wf(c, leaving);
}

/// A player who leaves a game that is being played ends it for the table:
/// each of the three others, and nobody else, is sent one notice that the
/// player left; the game is counted as terminated exactly once; and
/// afterwards nobody sits in that game any more.
pub proof fn lemma_leave_ends_game(c: ContextView, session: usize, polite: bool)
    requires
        c.wf(),
        c.knows(session),
        c.sessions[session as int].state is Playing,
    ensures
        ({
            let g = c.game_of(session);
            let others = c.games[g].players.remove(c.sessions[session as int].seat as int);
            let notices = to_all(others, MessageView::Disconnect);
            &&& c.games[g].players.len() == SEATS
            &&& others.len() == SEATS - 1
            &&& others.no_duplicates()
            &&& !others.contains(session)
            &&& forall|p: usize|
                others.contains(p) <==> (p != session && c.games[g].players.contains(p))
            &&& c.leave_messages(session, polite) == if polite {
                seq![(session, MessageView::Goodbye)] + notices
            } else {
                Seq::empty() + notices
            }
            &&& c.after_leave(session).games_terminated == bumped(c.games_terminated)
            &&& c.games_terminated < usize::MAX ==> c.after_leave(session).games_terminated
                == c.games_terminated + 1
            &&& c.after_leave(session).games[g].state is Completed
            &&& forall|j: int|
                0 <= j < c.sessions.len() ==> !(#[trigger] c.after_leave(
                    session,
                ).sessions[j]).sits_in(g)
        }),
{
    let g = c.game_of(session);
    let s = c.sessions[session as int];
    assert(c.session_ok(session as int));
    let players = c.games[g].players;
    assert(c.games[g].wf());
    let others = players.remove(s.seat as int);
    assert forall|p: usize| others.contains(p) <==> (p != session && players.contains(p)) by {
        if others.contains(p) {
            let k = choose|k: int| 0 <= k < others.len() && others[k] == p;
            if k < s.seat {
                assert(players[k] == p);
            } else {
                assert(players[k + 1] == p);
            }
        }
        if p != session && players.contains(p) {
            let k = choose|k: int| 0 <= k < players.len() && players[k] == p;
            if k < s.seat {
                assert(others[k] == p);
            } else {
                assert(others[k - 1] == p);
            }
        }
    }
}

/// The `READY` that starts a game deals a whole deck: the player at each
/// seat gets the seat's thirteen cards of the freshly shuffled deck, and
/// the four hands together hold each of the 52 cards exactly once.
pub proof fn lemma_start_deals_deck(c: ContextView, session: usize)
    requires
        c.wf(),
        c.knows(session),
        c.starts_game(session),
    ensures
        ({
            let g = c.game_of(session);
            let after = c.after_ready(session);
            let deck = c.next_deck();
            &&& after.games[g].state is Playing
            &&& after.games[g].players == c.games[g].players
            &&& after.games[g].players.len() == SEATS
            &&& forall|k: int|
                0 <= k < SEATS ==> after.sessions[(#[trigger] c.games[g].players[k]) as int].hand
                    == hand_of(deck, SEATS as int, k)
                    && after.sessions[c.games[g].players[k] as int].hand.len() == RANKS
            &&& hands_joined(deck, SEATS as int, SEATS as nat).to_multiset()
                == fresh_deck().to_multiset()
            &&& hands_joined(deck, SEATS as int, SEATS as nat).no_duplicates()
        }),
{
    let g = c.game_of(session);
    let after = c.after_ready(session);
    let deck = c.next_deck();
    lemma_seated(c, session);
    lemma_full_deal(c.source);
    lemma_shuffle_permutes(fresh_deck(), c.source, DECK_SIZE as nat);
    assert(c.games[g].wf());
    assert forall|k: int| 0 <= k < SEATS implies after.sessions[(
    #[trigger] c.games[g].players[k]) as int].hand == hand_of(deck, SEATS as int, k)
        && after.sessions[c.games[g].players[k] as int].hand.len() == RANKS by {
        assert(c.seat_linked(g, k));
        lemma_hand_bounds(DECK_SIZE as int, SEATS as int, k);
    }
}

/// While a game is played no card is lost: for every seat, the cards in
/// the player's hand, the card the player has on the table, and the tricks
/// that were taken are together as many as the cards that were dealt.
pub proof fn lemma_cards_conserved(c: ContextView, g: int, k: int)
    requires
        c.wf(),
        0 <= g < c.games.len(),
        c.games[g].state is Playing,
        0 <= k < SEATS,
    ensures
        c.games[g].players.len() == SEATS,
        c.games[g].players[k] < c.sessions.len(),
        c.sessions[c.games[g].players[k] as int].hand.len() + (if c.games[g].slots[k] is Some {
            1int
        } else {
            0int
        }) + c.games[g].team_one + c.games[g].team_two == RANKS,
{
    assert(c.games[g].wf());
    assert(c.seat_ok(g, k));
}

} // verus!
