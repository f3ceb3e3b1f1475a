//! No card is dealt twice: what is in the deck, on the board and in the hands
//! of the seats are different cards, from the start of a hand to its end.

use vstd::prelude::*;
use crate::card::{
    lemma_occurrences_add, lemma_occurrences_distinct, lemma_occurrences_push, occurrences, Card,
};
use crate::deck::{fresh_cards, lemma_fresh_deck_complete, lemma_rearranged_distinct};
use crate::game::{
    active_count, is_shuffled, lemma_acted_on, lemma_blinds_posted, lemma_first_with_status,
    lemma_hand_dealt, lemma_hand_dealt_set, lemma_hand_prepared, lemma_phase_advanced,
    lemma_phases_run, lemma_round_cleared, lemma_shuffled_len, lemma_winner_among, lemma_won_early,
    phases_left, round_dealt, GamePhase, PlayerAction, PlayerStatus, SeatView, TableView,
};

verus! {

/// How often the card occurs in the hands of the seats.
pub open spec fn held(seats: Seq<SeatView>, card: Card) -> nat
    decreases seats.len(),
{
    if seats.len() == 0 {
        0
    } else {
        held(seats.drop_last(), card) + occurrences(seats.last().hole_cards, card)
    }
}

/// How often the card occurs at the table: in the deck, on the board and in
/// the hands of the seats.
pub open spec fn copies(table: TableView, card: Card) -> nat {
    occurrences(table.deck, card) + occurrences(table.community_cards, card) + held(
        table.seats,
        card,
    )
}

/// No card is at the table twice.
pub open spec fn cards_distinct(table: TableView) -> bool {
    forall|card: Card| #[trigger] copies(table, card) <= 1
}

/// Replacing one seat changes what is held by the difference of its hands.
pub proof fn lemma_held_update(seats: Seq<SeatView>, i: int, seat: SeatView, card: Card)
    requires
        0 <= i < seats.len(),
    ensures
        held(seats.update(i, seat), card) == held(seats, card) - occurrences(
            seats[i].hole_cards,
            card,
        ) + occurrences(seat.hole_cards, card),
    decreases seats.len(),
{
    if i == seats.len() - 1 {
        assert(seats.update(i, seat).drop_last() =~= seats.drop_last());
    } else {
        assert(seats.update(i, seat).drop_last() =~= seats.drop_last().update(i, seat));
        lemma_held_update(seats.drop_last(), i, seat, card);
    }
}

/// Seats with the same hands hold the same cards.
pub proof fn lemma_held_same(a: Seq<SeatView>, b: Seq<SeatView>, card: Card)
    requires
        a.len() == b.len(),
        forall|i: int| 0 <= i < a.len() ==> (#[trigger] a[i]).hole_cards == b[i].hole_cards,
    ensures
        held(a, card) == held(b, card),
    decreases a.len(),
{
    if a.len() > 0 {
        assert forall|i: int| 0 <= i < a.drop_last().len() implies (
        #[trigger] a.drop_last()[i]).hole_cards == b.drop_last()[i].hole_cards by {
            assert(a[i].hole_cards == b[i].hole_cards);
        }
        lemma_held_same(a.drop_last(), b.drop_last(), card);
        assert(a.last() == a[a.len() - 1]);
    }
}

/// Seats with empty hands hold no card.
pub proof fn lemma_held_none(seats: Seq<SeatView>, card: Card)
    requires
        forall|i: int| 0 <= i < seats.len() ==> (#[trigger] seats[i]).hole_cards.len() == 0,
    ensures
        held(seats, card) == 0,
    decreases seats.len(),
{
    if seats.len() > 0 {
        assert forall|i: int| 0 <= i < seats.drop_last().len() implies (
        #[trigger] seats.drop_last()[i]).hole_cards.len() == 0 by {
            assert(seats[i].hole_cards.len() == 0);
        }
        lemma_held_none(seats.drop_last(), card);
        assert(seats.last() == seats[seats.len() - 1]);
    }
}

/// What one seat holds is among what all seats hold.
pub proof fn lemma_held_includes(seats: Seq<SeatView>, i: int, card: Card)
    requires
        0 <= i < seats.len(),
    ensures
        occurrences(seats[i].hole_cards, card) <= held(seats, card),
    decreases seats.len(),
{
    if i < seats.len() - 1 {
        lemma_held_includes(seats.drop_last(), i, card);
        assert(seats.drop_last()[i] == seats[i]);
    }
}

/// A round of dealing moves cards from the deck to the seats: no card is
/// counted more often after it than before.
pub proof fn lemma_round_dealt_copies(seats: Seq<SeatView>, deck: Seq<Card>, k: int, card: Card)
    requires
        0 <= k <= seats.len(),
    ensures
        round_dealt(seats, deck, k).0.len() == seats.len(),
        occurrences(round_dealt(seats, deck, k).1, card) + held(round_dealt(seats, deck, k).0, card)
            == occurrences(deck, card) + held(seats, card),
    decreases k,
{
    if k > 0 {
        lemma_round_dealt_copies(seats, deck, k - 1, card);
        let (dealt, left) = round_dealt(seats, deck, k - 1);
        if dealt[k - 1].status == PlayerStatus::Active && left.len() > 0 {
            lemma_held_update(dealt, k - 1, dealt[k - 1].after_card(left.last()), card);
            lemma_occurrences_push(dealt[k - 1].hole_cards, left.last(), card);
        }
    }
}

/// Dealing to the board moves cards from the deck to the board, but for the
/// burnt card, which leaves the table.
pub proof fn lemma_board_extended_copies(table: TableView, count: nat, card: Card)
    ensures
        copies(table.board_extended(count), card) <= copies(table, card),
        table.board_extended(count).seats == table.seats,
    decreases count,
{
    if count > 0 {
        lemma_board_extended_copies(table, (count - 1) as nat, card);
        let before = table.board_extended((count - 1) as nat);
        if before.deck.len() > 0 {
            lemma_occurrences_push(before.community_cards, before.deck.last(), card);
        }
    }
}

/// Going on to the next phase brings no card to the table.
pub proof fn lemma_phase_advanced_copies(table: TableView, card: Card)
    requires
        table.wf(),
    ensures
        copies(table.phase_advanced(), card) <= copies(table, card),
{
    let cleared = table.round_cleared();
    lemma_round_cleared(table);
    lemma_held_same(cleared.seats, table.seats, card);
    match table.phase {
        GamePhase::PreFlop => {
            lemma_board_extended_copies(cleared, 3, card);
        },
        GamePhase::Flop => {
            lemma_board_extended_copies(cleared, 1, card);
        },
        GamePhase::Turn => {
            lemma_board_extended_copies(cleared, 1, card);
        },
        GamePhase::River => {
            let at_showdown = TableView { phase: GamePhase::Showdown, ..cleared };
            lemma_winner_among(at_showdown, at_showdown.seats.len() as int);
            lemma_held_same(at_showdown.shown_down().seats, cleared.seats, card);
        },
        GamePhase::Showdown => {},
    }
}

/// Running the phases on brings no card to the table.
pub proof fn lemma_phases_run_copies(table: TableView, card: Card)
    requires
        table.wf(),
    ensures
        copies(table.phases_run(), card) <= copies(table, card),
    decreases phases_left(table.phase),
{
    lemma_phase_advanced(table);
    lemma_phase_advanced_copies(table, card);
    let next = table.phase_advanced();
    if table.phase != GamePhase::Showdown && next.phase != GamePhase::Showdown && active_count(
        next.seats,
    ) == 0 {
        lemma_phases_run_copies(next, card);
    }
}

/// A hand started with a full deck has no card twice, whatever was at the
/// table before.
pub proof fn lemma_hand_dealt_distinct(table: TableView, deck: Seq<Card>)
    requires
        table.ready(),
        is_shuffled(deck),
    ensures
        cards_distinct(table.hand_dealt(deck)),
{
    lemma_shuffled_len(deck);
    lemma_fresh_deck_complete();
    lemma_rearranged_distinct(fresh_cards(), deck);
    lemma_occurrences_distinct(deck);
    let prepared = table.hand_prepared(deck);
    lemma_hand_prepared(table, deck);
    let posted = prepared.blinds_posted();
    lemma_blinds_posted(prepared);
    let dealt = posted.hole_cards_dealt();
    let set = dealt.first_turn_set();
    lemma_hand_dealt_set(table, deck);
    let n = posted.seats.len() as int;
    let (once, left) = round_dealt(posted.seats, posted.deck, n);
    assert forall|card: Card| #[trigger] copies(table.hand_dealt(deck), card) <= 1 by {
        lemma_held_none(prepared.seats, card);
        lemma_held_same(posted.seats, prepared.seats, card);
        lemma_round_dealt_copies(posted.seats, posted.deck, n, card);
        lemma_round_dealt_copies(once, left, n, card);
        assert(occurrences(deck, card) <= 1);
        assert(copies(set, card) <= 1);
        if active_count(set.seats) == 0 {
            lemma_phases_run_copies(set, card);
        }
    }
}

/// One or two hands started with full decks leave no card twice at the
/// table.
pub proof fn lemma_hands_dealt_distinct(table: TableView, first: Seq<Card>, second: Seq<Card>)
    requires
        table.ready(),
        is_shuffled(first),
        is_shuffled(second),
    ensures
        cards_distinct(table.hands_dealt(first, second)),
{
    lemma_shuffled_len(first);
    lemma_hand_dealt_distinct(table, first);
    lemma_hand_dealt(table, first);
    let once = table.hand_dealt(first);
    if once.phase == GamePhase::Showdown {
        lemma_hand_dealt_distinct(once, second);
    }
}

/// An action with all that follows from it within the hand brings no card to
/// the table.
pub proof fn lemma_action_applied_distinct(table: TableView, seat: int, action: PlayerAction)
    requires
        table.wf(),
        0 <= seat < table.seats.len(),
        action matches PlayerAction::Raise(amount) ==> table.current_bet + amount <= u32::MAX,
        cards_distinct(table),
    ensures
        cards_distinct(table.action_applied(seat, action)),
{
    let acted = table.acted_on(seat, action);
    lemma_acted_on(table, seat, action);
    lemma_first_with_status(acted.seats, PlayerStatus::Active, 0);
    assert forall|card: Card| #[trigger] copies(table.action_applied(seat, action), card)
        <= 1 by {
        assert(copies(table, card) <= 1);
        assert forall|i: int| 0 <= i < acted.seats.len() implies (
        #[trigger] acted.seats[i]).hole_cards == table.seats[i].hole_cards by {
            if i != seat {
                assert(acted.seats[i] == table.seats[i]);
            }
        }
        lemma_held_same(acted.seats, table.seats, card);
        assert(copies(acted, card) == copies(table, card));
        lemma_phases_run_copies(acted, card);
        lemma_held_same(acted.won_early().seats, acted.seats, card);
    }
}

/// Whatever comes of an action, no card is at the table twice afterwards if
/// none was before.
pub proof fn lemma_action_outcome_distinct(
    table: TableView,
    id: Seq<char>,
    action: PlayerAction,
    first: Seq<Card>,
    second: Seq<Card>,
)
    requires
        table.wf(),
        is_shuffled(first),
        is_shuffled(second),
        cards_distinct(table),
    ensures
        cards_distinct(table.action_outcome(id, action, first, second)),
{
    if table.rejection(id, action) is None {
        let seat = table.current_player;
        lemma_action_applied_distinct(table, seat, action);
        if table.action_ends_hand(seat, action) {
            let acted = table.acted_on(seat, action);
            lemma_acted_on(table, seat, action);
            lemma_phases_run(acted);
            lemma_won_early(acted);
            lemma_hands_dealt_distinct(table.action_applied(seat, action), first, second);
        }
    }
}

/// The cards that a seat plays at showdown, its own and the board, are
/// different cards when no card is at the table twice.
pub proof fn lemma_seat_cards_distinct(table: TableView, seat: int)
    requires
        0 <= seat < table.seats.len(),
        cards_distinct(table),
    ensures
        table.seat_cards(seat).no_duplicates(),
{
    lemma_occurrences_distinct(table.seat_cards(seat));
    assert forall|card: Card| #[trigger] occurrences(table.seat_cards(seat), card) <= 1 by {
        lemma_occurrences_add(table.seats[seat].hole_cards, table.community_cards, card);
        lemma_held_includes(table.seats, seat, card);
        assert(copies(table, card) <= 1);
    }
}

} // verus!
