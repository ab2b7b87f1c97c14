//! The deck and the dealer: the 52 cards in a fixed order, a seeded
//! Fisher-Yates shuffle, and the split of a deck into equal hands.

use crate::card::{Card, Suit};
use vstd::prelude::*;
use vstd::seq_lib::*;

verus! {

/// Cards in one suit.
pub const RANKS: usize = 13;

/// Cards in a full deck.
pub const DECK_SIZE: usize = 52;

/// The suit of the `k`-th run of thirteen cards in a fresh deck.
pub open spec fn suit_at(k: int) -> Suit {
    if k == 0 {
        Suit::Hearts
    } else if k == 1 {
        Suit::Diamonds
    } else if k == 2 {
        Suit::Clubs
    } else {
        Suit::Spades
    }
}

/// The card at a position of a fresh deck: suits in runs of thirteen, each
/// run rising from the two to the ace.
pub open spec fn card_at(i: int) -> Card {
    Card { rank: (2 + i % 13) as u8, suit: suit_at(i / 13) }
}

/// A fresh deck: all 52 cards in their fixed order.
pub open spec fn fresh_deck() -> Seq<Card> {
    Seq::new(DECK_SIZE as nat, |i: int| card_at(i))
}

/// No card occurs twice in a fresh deck, and every card of it is real.
pub proof fn lemma_fresh_deck_distinct()
    ensures
        fresh_deck().no_duplicates(),
        forall|i: int| 0 <= i < fresh_deck().len() ==> (#[trigger] fresh_deck()[i]).is_valid(),
{
    assert forall|i: int, j: int|
        0 <= i < fresh_deck().len() && 0 <= j < fresh_deck().len() && i != j implies fresh_deck()[i]
        != fresh_deck()[j] by {
        if i / 13 == j / 13 {
            assert(i % 13 != j % 13);
        } else {
            assert(suit_at(i / 13) != suit_at(j / 13));
        }
    }
}

/// The suit of the `k`-th run of thirteen cards in a fresh deck.
fn suit_for(k: usize) -> (suit: Suit)
    ensures
        suit == suit_at(k as int),
{
    if k == 0 {
        Suit::Hearts
    } else if k == 1 {
        Suit::Diamonds
    } else if k == 2 {
        Suit::Clubs
    } else {
        Suit::Spades
    }
}

/// Builds a fresh deck.
pub fn build_deck() -> (deck: Vec<Card>)
    ensures
        deck@ == fresh_deck(),
{
    let mut deck: Vec<Card> = Vec::new();
    let mut i: usize = 0;
    while i < DECK_SIZE
        invariant
            i <= DECK_SIZE,
            deck@.len() == i,
            forall|p: int| 0 <= p < i ==> deck@[p] == card_at(p),
        decreases DECK_SIZE - i,
    {
        let rank: u8 = (2 + i % RANKS) as u8;
        deck.push(Card { rank, suit: suit_for(i / RANKS) });
        i += 1;
    }
    assert(deck@ =~= fresh_deck());
    deck
}

/// A reproducible source of numbers: a linear congruential generator that
/// is fully determined by its seed.
#[derive(Clone, Copy, Debug)]
pub struct SeededSource {
    pub state: u64,
}

/// The multiplier of the generator.
pub const STEP_FACTOR: u64 = 6364136223846793005;

/// The increment of the generator.
pub const STEP_OFFSET: u64 = 1442695040888963407;

/// The state that follows a state.
pub open spec fn next_state(state: u64) -> u64 {
    state.wrapping_mul(STEP_FACTOR).wrapping_add(STEP_OFFSET)
}

/// The number that a state gives out: its upper bits.
pub open spec fn draw_of(state: u64) -> u64 {
    state >> 33
}

/// The index below `bound` that the generator picks when it leaves `state`.
pub open spec fn pick(state: u64, bound: int) -> int
    recommends
        bound > 0,
{
    draw_of(next_state(state)) as int % bound
}

impl SeededSource {
    /// A source that starts from `seed`.
    pub fn new(seed: u64) -> (source: SeededSource)
        ensures
            source.state == seed,
    {
        SeededSource { state: seed }
    }

    /// Advances the source and returns its next number.
    pub fn next_u64(&mut self) -> (value: u64)
        ensures
            final(self).state == next_state(old(self).state),
            value == draw_of(final(self).state),
    {
        self.state = self.state.wrapping_mul(STEP_FACTOR).wrapping_add(STEP_OFFSET);
        self.state >> 33
    }

    /// Advances the source and returns an index below `bound`; with a bound
    /// of zero there is no such index and zero is returned.
    pub fn next_below(&mut self, bound: usize) -> (index: usize)
        ensures
            final(self).state == next_state(old(self).state),
            bound > 0 ==> index == pick(old(self).state, bound as int) && index < bound,
            bound == 0 ==> index == 0,
    {
        let value: u64 = self.next_u64();
        if bound == 0 {
            return 0;
        }
        let wide: u64 = bound as u64;
        let index: u64 = value % wide;
        index as usize
    }
}

/// The sequence with the items at two positions exchanged.
pub open spec fn swapped(cards: Seq<Card>, a: int, b: int) -> Seq<Card>
    recommends
        0 <= a < cards.len(),
        0 <= b < cards.len(),
{
    cards.update(a, cards[b]).update(b, cards[a])
}

/// Fisher-Yates over the first `n` positions: the last of them is exchanged
/// with a position picked at or below it, then the rest is shuffled with the
/// state that the pick left behind.
pub open spec fn shuffled(cards: Seq<Card>, state: u64, n: nat) -> Seq<Card>
    decreases n,
{
    if n <= 1 {
        cards
    } else {
        shuffled(swapped(cards, n - 1, pick(state, n as int)), next_state(state), (n - 1) as nat)
    }
}

/// The state of a source after it shuffled `n` positions.
pub open spec fn state_after_shuffle(state: u64, n: nat) -> u64
    decreases n,
{
    if n <= 1 {
        state
    } else {
        state_after_shuffle(next_state(state), (n - 1) as nat)
    }
}

/// Exchanging two positions keeps the cards: the same multiset, the same length.
pub proof fn lemma_swap_keeps_cards(cards: Seq<Card>, a: int, b: int)
    requires
        0 <= a < cards.len(),
        0 <= b < cards.len(),
    ensures
        swapped(cards, a, b).len() == cards.len(),
        swapped(cards, a, b).to_multiset() == cards.to_multiset(),
{
    let first = cards.update(a, cards[b]);
    to_multiset_update(cards, a, cards[b]);
    to_multiset_update(first, b, cards[a]);
    broadcast use group_to_multiset_ensures;

    assert(first[b] == cards[b]);
    assert(swapped(cards, a, b).to_multiset() =~= cards.to_multiset());
}

/// A shuffle is a rearrangement: whatever the seed, the shuffled sequence
/// holds the same cards as often as the sequence it was made from.
pub proof fn lemma_shuffle_permutes(cards: Seq<Card>, state: u64, n: nat)
    requires
        n <= cards.len(),
    ensures
        shuffled(cards, state, n).len() == cards.len(),
        shuffled(cards, state, n).to_multiset() == cards.to_multiset(),
    decreases n,
{
    if n > 1 {
        let j = pick(state, n as int);
        lemma_swap_keeps_cards(cards, n - 1, j);
        lemma_shuffle_permutes(swapped(cards, n - 1, j), next_state(state), (n - 1) as nat);
    }
}

/// A shuffle never makes a card occur twice.
pub proof fn lemma_shuffle_keeps_distinct(cards: Seq<Card>, state: u64, n: nat)
    requires
        n <= cards.len(),
        cards.no_duplicates(),
    ensures
        shuffled(cards, state, n).no_duplicates(),
{
    lemma_shuffle_permutes(cards, state, n);
    cards.lemma_multiset_has_no_duplicates();
    shuffled(cards, state, n).lemma_multiset_has_no_duplicates_conv();
}

/// Shuffles the deck in place with numbers drawn from `source`.
pub fn shuffle(deck: &mut Vec<Card>, source: &mut SeededSource)
    ensures
        final(deck)@ == shuffled(old(deck)@, old(source).state, old(deck)@.len()),
        final(deck)@.len() == old(deck)@.len(),
        final(deck)@.to_multiset() == old(deck)@.to_multiset(),
        final(source).state == state_after_shuffle(old(source).state, old(deck)@.len()),
{
    let mut n: usize = deck.len();
    proof {
        lemma_shuffle_permutes(deck@, source.state, n as nat);
    }
    while n > 1
        invariant
            n <= deck@.len(),
            deck@.len() == old(deck)@.len(),
            shuffled(deck@, source.state, n as nat) == shuffled(
                old(deck)@,
                old(source).state,
                old(deck)@.len(),
            ),
            state_after_shuffle(source.state, n as nat) == state_after_shuffle(
                old(source).state,
                old(deck)@.len(),
            ),
        decreases n,
    {
        let j: usize = source.next_below(n);
        let last: Card = deck[n - 1];
        let other: Card = deck[j];
        deck[n - 1] = other;
        deck[j] = last;
        n -= 1;
    }
}

/// How many cards each player gets: the deck split evenly, the rest left out.
pub open spec fn hand_size(deck_len: int, players: int) -> int
    recommends
        players > 0,
{
    deck_len / players
}

/// The hand of a seat: the seat's run of consecutive cards of the deck.
pub open spec fn hand_of(deck: Seq<Card>, players: int, seat: int) -> Seq<Card>
    recommends
        players > 0,
        0 <= seat < players,
{
    let k = hand_size(deck.len() as int, players);
    deck.subrange(seat * k, seat * k + k)
}

/// The runs of all seats lie inside the deck, one after the other.
pub proof fn lemma_hand_bounds(deck_len: int, players: int, seat: int)
    requires
        deck_len >= 0,
        players > 0,
        0 <= seat < players,
    ensures
        0 <= hand_size(deck_len, players),
        0 <= seat * hand_size(deck_len, players),
        seat * hand_size(deck_len, players) + hand_size(deck_len, players) <= players * hand_size(
            deck_len,
            players,
        ),
        players * hand_size(deck_len, players) <= deck_len,
{
    let k = deck_len / players;
    assert(k >= 0 && players * k <= deck_len) by (nonlinear_arith)
        requires
            deck_len >= 0,
            players > 0,
            k == deck_len / players,
    ;
    assert(0 <= seat * k && seat * k + k <= players * k) by (nonlinear_arith)
        requires
            0 <= seat < players,
            k >= 0,
    ;
}

/// Splits the deck into `players` hands of equal size, each a run of
/// consecutive cards in deck order. Cards beyond the last full round are
/// left undealt. With no players there are no hands.
pub fn deal(deck: &Vec<Card>, players: usize) -> (hands: Vec<Vec<Card>>)
    ensures
        hands@.len() == players,
        forall|seat: int|
            0 <= seat < players ==> (#[trigger] hands@[seat])@ == hand_of(
                deck@,
                players as int,
                seat,
            ),
{
    let mut hands: Vec<Vec<Card>> = Vec::new();
    if players == 0 {
        return hands;
    }
    let k: usize = deck.len() / players;
    let mut seat: usize = 0;
    let mut start: usize = 0;
    while seat < players
        invariant
            players > 0,
            deck@.len() <= usize::MAX,
            k == hand_size(deck@.len() as int, players as int),
            seat <= players,
            start == seat * k,
            hands@.len() == seat,
            forall|s: int|
                0 <= s < seat ==> (#[trigger] hands@[s])@ == hand_of(deck@, players as int, s),
        decreases players - seat,
    {
        proof {
            lemma_hand_bounds(deck@.len() as int, players as int, seat as int);
        }
        let mut hand: Vec<Card> = Vec::new();
        let mut c: usize = 0;
        while c < k
            invariant
                c <= k,
                start + k <= deck@.len() <= usize::MAX,
                hand@ == deck@.subrange(start as int, start + c),
            decreases k - c,
        {
            hand.push(deck[start + c]);
            c += 1;
            assert(hand@ =~= deck@.subrange(start as int, start + c));
        }
        hands.push(hand);
        assert((seat + 1) * k == start + k) by (nonlinear_arith)
            requires
                start == seat * k,
        ;
        seat += 1;
        start += k;
    }
    hands
}

/// The first `n` hands of a deal laid end to end.
pub open spec fn hands_joined(deck: Seq<Card>, players: int, n: nat) -> Seq<Card>
    decreases n,
{
    if n == 0 {
        Seq::empty()
    } else {
        hands_joined(deck, players, (n - 1) as nat) + hand_of(deck, players, n - 1)
    }
}

/// The cards that a deal leaves out: what follows the last full round.
pub open spec fn undealt(deck: Seq<Card>, players: int) -> Seq<Card>
    recommends
        players > 0,
{
    deck.subrange(players * hand_size(deck.len() as int, players), deck.len() as int)
}

/// The first `n` hands laid end to end are the first cards of the deck, in
/// deck order.
pub proof fn lemma_hands_joined(deck: Seq<Card>, players: int, n: nat)
    requires
        players > 0,
        n <= players,
    ensures
        n * hand_size(deck.len() as int, players) <= deck.len(),
        hands_joined(deck, players, n) == deck.subrange(
            0,
            n * hand_size(deck.len() as int, players),
        ),
    decreases n,
{
    let k = hand_size(deck.len() as int, players);
    if n == 0 {
        assert(0 * k == 0);
        assert(hands_joined(deck, players, n) =~= deck.subrange(0, 0));
    } else {
        lemma_hands_joined(deck, players, (n - 1) as nat);
        lemma_hand_bounds(deck.len() as int, players, n - 1);
        assert((n - 1) * k + k == n * k) by (nonlinear_arith);
        assert(n * k <= players * k) by (nonlinear_arith)
            requires
                n <= players,
                k >= 0,
        ;
        assert(hands_joined(deck, players, n) =~= deck.subrange(0, n * k));
    }
}

/// Dealing loses and invents nothing: the hands together with the undealt
/// rest hold exactly the cards of the deck, each as often as the deck does.
pub proof fn lemma_deal_conserves(deck: Seq<Card>, players: int)
    requires
        players > 0,
    ensures
        hands_joined(deck, players, players as nat) + undealt(deck, players) == deck,
        hands_joined(deck, players, players as nat).to_multiset().add(
            undealt(deck, players).to_multiset(),
        ) == deck.to_multiset(),
{
    lemma_hands_joined(deck, players, players as nat);
    let joined = hands_joined(deck, players, players as nat);
    let rest = undealt(deck, players);
    assert(joined + rest =~= deck);
    lemma_multiset_commutative(joined, rest);
}

/// In a deal from a deck without repeated cards no card lands in two hands,
/// nor twice in one.
pub proof fn lemma_deal_disjoint(deck: Seq<Card>, players: int, a: int, b: int, i: int, j: int)
    requires
        players > 0,
        deck.no_duplicates(),
        0 <= a < players,
        0 <= b < players,
        0 <= i < hand_size(deck.len() as int, players),
        0 <= j < hand_size(deck.len() as int, players),
        a != b || i != j,
    ensures
        hand_of(deck, players, a)[i] != hand_of(deck, players, b)[j],
{
    let k = hand_size(deck.len() as int, players);
    lemma_hand_bounds(deck.len() as int, players, a);
    lemma_hand_bounds(deck.len() as int, players, b);
    assert(hand_of(deck, players, a)[i] == deck[a * k + i]);
    assert(hand_of(deck, players, b)[j] == deck[b * k + j]);
    if a != b {
        assert(a * k + i != b * k + j) by (nonlinear_arith)
            requires
                a != b,
                0 <= i < k,
                0 <= j < k,
        ;
    }
}

/// Shuffling and then dealing loses and invents nothing: whatever the seed,
/// the hands together with the undealt rest of the shuffled deck hold
/// exactly the cards of the deck before the shuffle, each as often as that
/// deck does; and where that deck repeats no card, no card lands in two
/// hands.
pub proof fn lemma_dealer_conserves(deck: Seq<Card>, state: u64, players: int)
    requires
        players > 0,
    ensures
        ({
            let mixed = shuffled(deck, state, deck.len());
            &&& hands_joined(mixed, players, players as nat).to_multiset().add(
                undealt(mixed, players).to_multiset(),
            ) == deck.to_multiset()
            &&& deck.no_duplicates() ==> forall|a: int, b: int, i: int, j: int|
                #![trigger hand_of(mixed, players, a)[i], hand_of(mixed, players, b)[j]]
                0 <= a < players && 0 <= b < players && 0 <= i < hand_size(
                    deck.len() as int,
                    players,
                ) && 0 <= j < hand_size(deck.len() as int, players) && (a != b || i != j)
                    ==> hand_of(mixed, players, a)[i] != hand_of(mixed, players, b)[j]
        }),
{
    let mixed = shuffled(deck, state, deck.len());
    lemma_shuffle_permutes(deck, state, deck.len());
    lemma_deal_conserves(mixed, players);
    if deck.no_duplicates() {
        lemma_shuffle_keeps_distinct(deck, state, deck.len());
        assert forall|a: int, b: int, i: int, j: int|
            #![trigger hand_of(mixed, players, a)[i], hand_of(mixed, players, b)[j]]
            0 <= a < players && 0 <= b < players && 0 <= i < hand_size(deck.len() as int, players)
                && 0 <= j < hand_size(deck.len() as int, players) && (a != b || i != j)
                implies hand_of(mixed, players, a)[i] != hand_of(mixed, players, b)[j] by {
            lemma_deal_disjoint(mixed, players, a, b, i, j);
        }
    }
}

/// A full deck dealt to four players leaves no card out: the four hands
/// together hold each of the 52 cards exactly once.
pub proof fn lemma_full_deal(state: u64)
    ensures
        ({
            let mixed = shuffled(fresh_deck(), state, DECK_SIZE as nat);
            &&& hands_joined(mixed, 4, 4) == mixed
            &&& hands_joined(mixed, 4, 4).to_multiset() == fresh_deck().to_multiset()
            &&& hands_joined(mixed, 4, 4).no_duplicates()
        }),
{
    let mixed = shuffled(fresh_deck(), state, DECK_SIZE as nat);
    lemma_fresh_deck_distinct();
    lemma_shuffle_permutes(fresh_deck(), state, DECK_SIZE as nat);
    lemma_shuffle_keeps_distinct(fresh_deck(), state, DECK_SIZE as nat);
    lemma_hands_joined(mixed, 4, 4);
    assert(hands_joined(mixed, 4, 4) =~= mixed);
}

/// Builds a fresh deck, shuffles it with `source` and deals it to four
/// players.
pub fn deal_game(source: &mut SeededSource) -> (hands: Vec<Vec<Card>>)
    ensures
        hands@.len() == 4,
        forall|seat: int|
            0 <= seat < 4 ==> (#[trigger] hands@[seat])@ == hand_of(
                shuffled(fresh_deck(), old(source).state, DECK_SIZE as nat),
                4,
                seat,
            ),
        forall|seat: int| 0 <= seat < 4 ==> (#[trigger] hands@[seat])@.len() == RANKS,
        final(source).state == state_after_shuffle(old(source).state, DECK_SIZE as nat),
{
    let mut deck = build_deck();
    shuffle(&mut deck, source);
    let hands = deal(&deck, 4);
    proof {
        assert forall|seat: int| 0 <= seat < 4 implies (#[trigger] hands@[seat])@.len()
            == RANKS by {
            lemma_hand_bounds(52, 4, seat);
        }
    }
    hands
}

} // verus!
