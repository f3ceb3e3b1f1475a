//! One table of Texas Hold'em: seats, blinds, betting rounds, phases and
//! showdown.
//!
//! The rules are written down twice. `TableView` holds them as functions from
//! a table to the table that follows; `GameState` is the table that runs, and
//! each of its operations is proved to do what `TableView` says.
//!
//! The table keeps one pot. A seat that is all-in for less than the others
//! have bet can still win all of it, and of equally good hands at showdown the
//! last seat takes the whole pot. A seat's flag for having acted is cleared
//! when a hand starts, when a betting round starts, and when another seat
//! raises.
//!
//! A hand that nobody can play, because every seat with chips is all-in once
//! the blinds are posted, goes straight to the showdown. Two such hands in a
//! row leave the table resting at the showdown.

use vstd::prelude::*;
use crate::card::Card;
use crate::deck::{fresh_cards, Deck};
use crate::integrity::{
    cards_distinct, lemma_action_applied_distinct, lemma_action_outcome_distinct,
    lemma_hand_dealt_distinct,
};
use crate::hand::{
    best_value, lemma_best_value, lemma_order_total, lemma_order_transitive, value_order, Hand,
};
use crate::text::{decimal, decimal_string};

verus! {

/// The identity of a player.
pub type PlayerId = String;

/// The most seats a table can have: each gets two cards, and five community
/// cards with three burnt ones must be left in the deck.
pub const MAX_SEATS: usize = 22;

/// What a seat is doing in the hand.
#[derive(Debug, Clone, Copy, PartialEq, Eq, Structural)]
pub enum PlayerStatus {
    /// In the hand and able to act.
    Active,
    /// Out of the hand.
    Folded,
    /// In the hand with no chips left to bet.
    AllIn,
    /// Away from the table.
    SittingOut,
    /// Out of the game.
    Eliminated,
}

/// The phases of a hand.
#[derive(Debug, Clone, Copy, PartialEq, Eq, Structural)]
pub enum GamePhase {
    PreFlop,
    Flop,
    Turn,
    River,
    Showdown,
}

/// What a player can do on their turn. `Raise` carries the amount by which the
/// table's bet goes up.
#[derive(Debug, Clone, Copy, PartialEq, Eq, Structural)]
pub enum PlayerAction {
    Fold,
    Check,
    Call,
    Raise(u32),
    AllIn,
}

/// A seat at the table.
#[derive(Debug, Clone)]
pub struct Player {
    pub id: PlayerId,
    pub name: String,
    pub chips: u32,
    pub hole_cards: Vec<Card>,
    pub current_bet: u32,
    pub status: PlayerStatus,
}

/// A seat as the rules see it.
pub struct SeatView {
    pub id: Seq<char>,
    pub name: Seq<char>,
    pub chips: int,
    pub hole_cards: Seq<Card>,
    pub current_bet: int,
    pub status: PlayerStatus,
}

impl SeatView {
    /// What the seat pays when asked for `amount`: no more than its stack.
    pub open spec fn paid(self, amount: int) -> int {
        if amount <= self.chips {
            amount
        } else {
            self.chips
        }
    }

    /// The seat after it was asked to bet `amount`. A seat that runs out of
    /// chips is all-in.
    pub open spec fn after_bet(self, amount: int) -> SeatView {
        SeatView {
            chips: self.chips - self.paid(amount),
            current_bet: self.current_bet + self.paid(amount),
            status: if self.chips - self.paid(amount) == 0 {
                PlayerStatus::AllIn
            } else {
                self.status
            },
            ..self
        }
    }

    /// The seat after it folded.
    pub open spec fn after_fold(self) -> SeatView {
        SeatView { status: PlayerStatus::Folded, ..self }
    }

    /// The seat at the start of a hand: no cards, nothing bet, in the hand if
    /// it has chips and out of the game if it has none.
    pub open spec fn after_reset(self) -> SeatView {
        SeatView {
            hole_cards: Seq::empty(),
            current_bet: 0,
            status: if self.chips > 0 {
                PlayerStatus::Active
            } else {
                PlayerStatus::Eliminated
            },
            ..self
        }
    }

    /// The seat with `amount` more chips.
    pub open spec fn after_win(self, amount: int) -> SeatView {
        SeatView { chips: self.chips + amount, ..self }
    }

    /// The seat with one more hole card.
    pub open spec fn after_card(self, card: Card) -> SeatView {
        SeatView { hole_cards: self.hole_cards.push(card), ..self }
    }

    /// The seat with nothing bet in this round.
    pub open spec fn after_round(self) -> SeatView {
        SeatView { current_bet: 0, ..self }
    }
}

impl View for Player {
    type V = SeatView;

    open spec fn view(&self) -> SeatView {
        SeatView {
            id: self.id@,
            name: self.name@,
            chips: self.chips as int,
            hole_cards: self.hole_cards@,
            current_bet: self.current_bet as int,
            status: self.status,
        }
    }
}

impl Player {
    /// A new seat with `chips` chips, in the hand, without cards.
    pub fn new(id: PlayerId, name: String, chips: u32) -> (player: Player)
        ensures
            player@ == (SeatView {
                id: id@,
                name: name@,
                chips: chips as int,
                hole_cards: Seq::empty(),
                current_bet: 0,
                status: PlayerStatus::Active,
            }),
    {
        Player {
            id,
            name,
            chips,
            hole_cards: Vec::new(),
            current_bet: 0,
            status: PlayerStatus::Active,
        }
    }

    /// Bets `amount`, or the whole stack if that is less, and returns what was
    /// paid.
    pub fn bet(&mut self, amount: u32) -> (paid: u32)
        requires
            old(self)@.current_bet + old(self)@.paid(amount as int) <= u32::MAX,
        ensures
            paid == old(self)@.paid(amount as int),
            final(self)@ == old(self)@.after_bet(amount as int),
    {
        let actual_bet = if amount <= self.chips {
            amount
        } else {
            self.chips
        };
        self.chips -= actual_bet;
        self.current_bet += actual_bet;
        if self.chips == 0 {
            self.status = PlayerStatus::AllIn;
        }
        actual_bet
    }

    /// Leaves the hand.
    pub fn fold(&mut self)
        ensures
            final(self)@ == old(self)@.after_fold(),
    {
        self.status = PlayerStatus::Folded;
    }

    /// Gets the seat ready for a new hand.
    pub fn reset_for_new_hand(&mut self)
        ensures
            final(self)@ == old(self)@.after_reset(),
    {
        self.hole_cards.clear();
        self.current_bet = 0;
        if self.chips > 0 {
            self.status = PlayerStatus::Active;
        } else {
            self.status = PlayerStatus::Eliminated;
        }
    }
}

/// The state of a table.
#[derive(Debug, Clone)]
pub struct GameState {
    pub players: Vec<Player>,
    pub community_cards: Vec<Card>,
    pub pot: u32,
    pub current_bet: u32,
    pub phase: GamePhase,
    pub dealer_position: usize,
    pub current_player: usize,
    pub small_blind: u32,
    pub big_blind: u32,
    /// For each seat, whether it has acted in this betting round.
    pub players_acted: Vec<bool>,
    pub action_log: Vec<String>,
    pub last_hand_winner: Option<usize>,
    pub last_hand_amount: u32,
    pub last_hand_description: String,
    pub last_hand_winner_name: Option<String>,
    pub last_hand_cards: Option<Vec<Card>>,
    /// The cards not yet dealt in this hand.
    pub deck: Deck,
}

/// A table as the rules see it. The last card of `deck` is its top.
pub struct TableView {
    pub seats: Seq<SeatView>,
    pub community_cards: Seq<Card>,
    pub pot: int,
    pub current_bet: int,
    pub phase: GamePhase,
    pub dealer_position: int,
    pub current_player: int,
    pub small_blind: int,
    pub big_blind: int,
    pub acted: Seq<bool>,
    pub action_log: Seq<Seq<char>>,
    pub last_hand_winner: Option<int>,
    pub last_hand_amount: int,
    pub last_hand_description: Seq<char>,
    pub last_hand_winner_name: Option<Seq<char>>,
    pub last_hand_cards: Option<Seq<Card>>,
    pub deck: Seq<Card>,
}

/// The seats as the rules see them.
pub open spec fn seat_views(players: Seq<Player>) -> Seq<SeatView> {
    players.map_values(|p: Player| p@)
}

/// The entries of a log as texts.
pub open spec fn texts(entries: Seq<String>) -> Seq<Seq<char>> {
    entries.map_values(|entry: String| entry@)
}

// ---------------------------------------------------------------------------
// Seats
// ---------------------------------------------------------------------------
/// How many seats have the given status.
pub open spec fn count_status(seats: Seq<SeatView>, status: PlayerStatus) -> nat
    decreases seats.len(),
{
    if seats.len() == 0 {
        0
    } else {
        count_status(seats.drop_last(), status) + if seats.last().status == status {
            1nat
        } else {
            0nat
        }
    }
}

/// How many seats can act.
pub open spec fn active_count(seats: Seq<SeatView>) -> nat {
    count_status(seats, PlayerStatus::Active)
}

/// The chips in all the stacks.
pub open spec fn total_chips(seats: Seq<SeatView>) -> int
    decreases seats.len(),
{
    if seats.len() == 0 {
        0
    } else {
        total_chips(seats.drop_last()) + seats.last().chips
    }
}

/// The seat after `seat`, going round a table of `n` seats.
pub open spec fn seat_after(seat: int, n: int) -> int {
    if seat + 1 >= n {
        0
    } else {
        seat + 1
    }
}

/// The first active seat after `seat`, looking at no more than `left` seats;
/// the last seat looked at if none of them is active.
pub open spec fn next_active_within(seats: Seq<SeatView>, seat: int, left: nat) -> int
    decreases left,
{
    if left == 0 {
        seat
    } else {
        let next = seat_after(seat, seats.len() as int);
        if seats[next].status == PlayerStatus::Active {
            next
        } else {
            next_active_within(seats, next, (left - 1) as nat)
        }
    }
}

/// The first active seat after `start`, going once round the table; `start`
/// itself last. With no active seat, `start`.
pub open spec fn next_active(seats: Seq<SeatView>, start: int) -> int {
    next_active_within(seats, start, seats.len())
}

/// The first seat from `from` on that has the given status.
pub open spec fn first_with_status(seats: Seq<SeatView>, status: PlayerStatus, from: int) -> Option<
    int,
>
    decreases seats.len() - from,
{
    if from >= seats.len() {
        None
    } else if seats[from].status == status {
        Some(from)
    } else {
        first_with_status(seats, status, from + 1)
    }
}

/// The first seat from `from` on that has the identity `id`.
pub open spec fn seat_of(seats: Seq<SeatView>, id: Seq<char>, from: int) -> Option<int>
    decreases seats.len() - from,
{
    if from >= seats.len() {
        None
    } else if seats[from].id == id {
        Some(from)
    } else {
        seat_of(seats, id, from + 1)
    }
}

/// The seats with one card more for each active seat among the first `k`, dealt
/// in seat order from the top of the deck, and the deck that is left.
pub open spec fn round_dealt(seats: Seq<SeatView>, deck: Seq<Card>, k: int) -> (Seq<SeatView>, Seq<
    Card,
>)
    decreases k,
{
    if k <= 0 {
        (seats, deck)
    } else {
        let (dealt, left) = round_dealt(seats, deck, k - 1);
        if dealt[k - 1].status == PlayerStatus::Active && left.len() > 0 {
            (dealt.update(k - 1, dealt[k - 1].after_card(left.last())), left.drop_last())
        } else {
            (dealt, left)
        }
    }
}

/// The board with the top card of the deck added, and the deck that is left;
/// both unchanged if the deck is empty.
pub open spec fn board_dealt(board: Seq<Card>, deck: Seq<Card>) -> (Seq<Card>, Seq<Card>) {
    if deck.len() > 0 {
        (board.push(deck.last()), deck.drop_last())
    } else {
        (board, deck)
    }
}

/// The deck without its top card.
pub open spec fn burnt(deck: Seq<Card>) -> Seq<Card> {
    if deck.len() > 0 {
        deck.drop_last()
    } else {
        deck
    }
}

/// How a status is written.
pub open spec fn status_name(status: PlayerStatus) -> Seq<char> {
    match status {
        PlayerStatus::Active => "Active"@,
        PlayerStatus::Folded => "Folded"@,
        PlayerStatus::AllIn => "AllIn"@,
        PlayerStatus::SittingOut => "SittingOut"@,
        PlayerStatus::Eliminated => "Eliminated"@,
    }
}

/// How many phases follow the given one.
pub open spec fn phases_left(phase: GamePhase) -> nat {
    match phase {
        GamePhase::PreFlop => 4,
        GamePhase::Flop => 3,
        GamePhase::Turn => 2,
        GamePhase::River => 1,
        GamePhase::Showdown => 0,
    }
}

impl TableView {
    // -----------------------------------------------------------------------
    // Validity
    // -----------------------------------------------------------------------
    /// A hand can be started: there are seats, no more than the deck can serve,
    /// the dealer button is on a seat, and all the chips fit in one stack.
    pub open spec fn ready(self) -> bool {
        &&& 1 <= self.seats.len() <= MAX_SEATS
        &&& 0 <= self.dealer_position < self.seats.len()
        &&& 0 <= self.pot
        &&& forall|i: int| 0 <= i < self.seats.len() ==> (#[trigger] self.seats[i]).chips >= 0
        &&& total_chips(self.seats) + self.pot <= u32::MAX
        &&& 0 <= self.small_blind <= u32::MAX
        &&& 0 <= self.big_blind <= u32::MAX
    }

    /// The board and the deck fit the phase: the board has the cards of the
    /// phase, and the deck has those that the later phases need.
    pub open spec fn cards_fit(self) -> bool {
        &&& forall|i: int|
            0 <= i < self.seats.len() ==> (#[trigger] self.seats[i]).hole_cards.len() <= 2
        &&& match self.phase {
            GamePhase::PreFlop => self.community_cards.len() == 0 && self.deck.len() >= 8,
            GamePhase::Flop => self.community_cards.len() == 3 && self.deck.len() >= 4,
            GamePhase::Turn => self.community_cards.len() == 4 && self.deck.len() >= 2,
            GamePhase::River => self.community_cards.len() == 5,
            GamePhase::Showdown => self.community_cards.len() == 5,
        }
    }

    /// The table is in order for betting: a hand can be started, every seat has
    /// its flag, the turn is on a seat, no seat has bet more in this round than
    /// the pot holds, and the cards fit the phase.
    pub open spec fn wf(self) -> bool {
        &&& self.ready()
        &&& self.acted.len() == self.seats.len()
        &&& 0 <= self.current_player < self.seats.len()
        &&& 0 <= self.current_bet <= u32::MAX
        &&& self.bets_within()
        &&& self.cards_fit()
    }

    /// No seat has bet more in this round than the pot holds.
    pub open spec fn bets_within(self) -> bool {
        forall|i: int|
            0 <= i < self.seats.len() ==> 0 <= (#[trigger] self.seats[i]).current_bet <= self.pot
    }

    /// A seat other than `seat` has not folded.
    pub open spec fn another_in_hand(self, seat: int) -> bool {
        exists|other: int|
            0 <= other < self.seats.len() && other != seat && (#[trigger] self.seats[other]).status
                != PlayerStatus::Folded
    }

    /// All the chips at the table: those in the stacks and those in the pot.
    pub open spec fn chips_in_play(self) -> int {
        total_chips(self.seats) + self.pot
    }

    /// The turn is on a seat that can act, unless the table rests at the
    /// showdown.
    pub open spec fn turn_is_live(self) -> bool {
        self.phase != GamePhase::Showdown ==> self.seats[self.current_player].status
            == PlayerStatus::Active
    }

    /// Every seat that can act has chips.
    pub open spec fn actives_have_chips(self) -> bool {
        forall|i: int|
            0 <= i < self.seats.len() && (#[trigger] self.seats[i]).status == PlayerStatus::Active
                ==> self.seats[i].chips > 0
    }

    /// A new table: every player has a seat with `chips` chips, the dealer
    /// button and the turn are on the first seat, the deck is fresh.
    pub open spec fn initial(
        players: Seq<(Seq<char>, Seq<char>)>,
        chips: int,
        small_blind: int,
        big_blind: int,
    ) -> TableView {
        TableView {
            seats: Seq::new(
                players.len(),
                |i: int|
                    SeatView {
                        id: players[i].0,
                        name: players[i].1,
                        chips: chips,
                        hole_cards: Seq::empty(),
                        current_bet: 0,
                        status: PlayerStatus::Active,
                    },
            ),
            community_cards: Seq::empty(),
            pot: 0,
            current_bet: 0,
            phase: GamePhase::PreFlop,
            dealer_position: 0,
            current_player: 0,
            small_blind: small_blind,
            big_blind: big_blind,
            acted: Seq::new(players.len(), |i: int| false),
            action_log: Seq::empty(),
            last_hand_winner: None,
            last_hand_amount: 0,
            last_hand_description: Seq::empty(),
            last_hand_winner_name: None,
            last_hand_cards: None,
            deck: fresh_cards(),
        }
    }

    // -----------------------------------------------------------------------
    // Betting
    // -----------------------------------------------------------------------
    /// What the seat has to add to match the table's bet.
    pub open spec fn owed(self, seat: int) -> int {
        if self.seats[seat].current_bet < self.current_bet {
            self.current_bet - self.seats[seat].current_bet
        } else {
            0
        }
    }

    /// The least amount by which a raise may lift the table's bet: the big
    /// blind, or the table's bet if that is more.
    pub open spec fn min_raise(self) -> int {
        if self.big_blind >= self.current_bet {
            self.big_blind
        } else {
            self.current_bet
        }
    }

    /// The betting round is over: at most one seat can act, or every seat that
    /// can act either has no chips or has acted and matched the table's bet.
    pub open spec fn round_complete(self) -> bool {
        ||| active_count(self.seats) <= 1
        ||| forall|i: int|
            0 <= i < self.seats.len() && (#[trigger] self.seats[i]).status == PlayerStatus::Active
                ==> self.seats[i].chips == 0 || (self.acted[i] && self.seats[i].current_bet
                == self.current_bet)
    }

    /// One seat can act and no seat is all-in: the hand is won without a
    /// showdown.
    pub open spec fn sole_survivor(self) -> bool {
        active_count(self.seats) == 1 && count_status(self.seats, PlayerStatus::AllIn) == 0
    }

    /// What the seat on turn may do, in the order fold, check, call, raise,
    /// all-in. Nothing at showdown or if the seat cannot act. The raise named
    /// is the least one.
    pub open spec fn legal_actions(self) -> Seq<PlayerAction> {
        let seat = self.seats[self.current_player];
        let owed = self.owed(self.current_player);
        if self.phase == GamePhase::Showdown || seat.status != PlayerStatus::Active {
            Seq::empty()
        } else {
            seq![PlayerAction::Fold] + (if owed == 0 {
                seq![PlayerAction::Check]
            } else if seat.chips >= owed {
                seq![PlayerAction::Call]
            } else {
                Seq::empty()
            }) + (if seat.chips > owed + self.min_raise() {
                seq![PlayerAction::Raise(self.min_raise() as u32)]
            } else {
                Seq::empty()
            }) + (if seat.chips > 0 {
                seq![PlayerAction::AllIn]
            } else {
                Seq::empty()
            })
        }
    }

    /// The most by which the table's bet can still go up.
    pub open spec fn raise_room(self) -> int {
        u32::MAX - self.current_bet
    }

    /// Why the action of the player `id` is refused, if it is: the player has
    /// no seat, it is not their turn, their seat cannot act, a check while a
    /// call is owed, a raise below the least one, or a raise by more than the
    /// table's bet can go up.
    pub open spec fn rejection(self, id: Seq<char>, action: PlayerAction) -> Option<Seq<char>> {
        match seat_of(self.seats, id, 0) {
            None => Some("Joueur non trouvé"@),
            Some(seat) => {
                if seat != self.current_player {
                    Some("Ce n'est pas le tour de ce joueur"@)
                } else if self.seats[seat].status != PlayerStatus::Active {
                    Some(
                        "Le joueur ne peut pas agir (statut: "@ + status_name(
                            self.seats[seat].status,
                        ) + ")"@,
                    )
                } else {
                    match action {
                        PlayerAction::Check => if self.owed(seat) > 0 {
                            Some("Impossible de checker, il faut suivre ou se coucher"@)
                        } else {
                            None
                        },
                        PlayerAction::Raise(amount) => if amount < self.min_raise() {
                            Some(
                                "Raise trop petit. Minimum: "@ + decimal(self.min_raise() as nat)
                                    + " (big blind: "@ + decimal(self.big_blind as nat)
                                    + ", current bet: "@ + decimal(self.current_bet as nat) + ")"@,
                            )
                        } else if amount > self.raise_room() {
                            Some("Raise trop grand. Maximum: "@ + decimal(self.raise_room() as nat))
                        } else {
                            None
                        },
                        _ => None,
                    }
                }
            },
        }
    }

    /// The table with the seat `seat` replaced.
    pub open spec fn with_seat(self, seat: int, view: SeatView) -> TableView {
        TableView { seats: self.seats.update(seat, view), ..self }
    }

    /// The table with one more entry in its log.
    pub open spec fn logged(self, entry: Seq<char>) -> TableView {
        TableView { action_log: self.action_log.push(entry), ..self }
    }

    /// The table with the seat's flag set.
    pub open spec fn marked(self, seat: int) -> TableView {
        TableView { acted: self.acted.update(seat, true), ..self }
    }

    /// The table with every flag cleared: the round is open again.
    pub open spec fn reopened(self) -> TableView {
        TableView { acted: Seq::new(self.acted.len(), |i: int| false), ..self }
    }

    /// The table after the seat was asked to bet `amount`: what it paid is in
    /// the pot.
    pub open spec fn bet_taken(self, seat: int, amount: int) -> TableView {
        TableView {
            seats: self.seats.update(seat, self.seats[seat].after_bet(amount)),
            pot: self.pot + self.seats[seat].paid(amount),
            ..self
        }
    }

    /// The table right after the action of the seat, before the turn moves on.
    pub open spec fn acted_on(self, seat: int, action: PlayerAction) -> TableView {
        let name = self.seats[seat].name;
        match action {
            PlayerAction::Fold => self.with_seat(seat, self.seats[seat].after_fold()).marked(
                seat,
            ).logged(name + " folds"@),
            PlayerAction::Check => self.marked(seat).logged(name + " checks"@),
            PlayerAction::Call => self.bet_taken(seat, self.owed(seat)).marked(seat).logged(
                name + " calls "@ + decimal(self.seats[seat].paid(self.owed(seat)) as nat),
            ),
            PlayerAction::Raise(amount) => (TableView {
                current_bet: self.current_bet + amount,
                ..self.bet_taken(seat, self.owed(seat) + amount)
            }).reopened().marked(seat).logged(
                name + " raises to "@ + decimal((self.current_bet + amount) as nat),
            ),
            PlayerAction::AllIn => {
                let paid = self.bet_taken(seat, self.seats[seat].chips);
                let stake = paid.seats[seat].current_bet;
                (if stake > self.current_bet {
                    (TableView { current_bet: stake, ..paid }).reopened()
                } else {
                    paid
                }).marked(seat).logged(
                    name + " goes all-in with "@ + decimal(self.seats[seat].chips as nat),
                )
            },
        }
    }

    /// The table with the turn on the next active seat. Should no seat be
    /// active, the phases run on instead.
    pub open spec fn turn_advanced(self) -> TableView {
        let next = next_active(self.seats, self.current_player);
        if self.seats[next].status == PlayerStatus::Active {
            TableView { current_player: next, ..self }
        } else {
            self.phases_run()
        }
    }

    // -----------------------------------------------------------------------
    // Phases
    // -----------------------------------------------------------------------
    /// The table with the betting round cleared: no seat has bet anything,
    /// the table's bet is nothing, and no seat has acted yet.
    pub open spec fn round_cleared(self) -> TableView {
        TableView {
            seats: self.seats.map_values(|seat: SeatView| seat.after_round()),
            current_bet: 0,
            acted: Seq::new(self.acted.len(), |i: int| false),
            ..self
        }
    }

    /// The table with one card burnt and `count` cards dealt to the board, as
    /// far as the deck goes.
    pub open spec fn board_extended(self, count: nat) -> TableView
        decreases count,
    {
        if count == 0 {
            TableView { deck: burnt(self.deck), ..self }
        } else {
            let before = self.board_extended((count - 1) as nat);
            let (board, deck) = board_dealt(before.community_cards, before.deck);
            TableView { community_cards: board, deck: deck, ..before }
        }
    }

    /// The table in the next phase. The bets of the round are cleared. Before
    /// the river a card is burnt, the board gets its cards (three for the flop,
    /// then one each), and the turn goes to the first active seat after the
    /// dealer. After the river comes the showdown, which pays the pot.
    pub open spec fn phase_advanced(self) -> TableView {
        let cleared = self.round_cleared();
        match self.phase {
            GamePhase::PreFlop => {
                let dealt = cleared.board_extended(3);
                TableView {
                    phase: GamePhase::Flop,
                    current_player: next_active(dealt.seats, dealt.dealer_position),
                    ..dealt
                }
            },
            GamePhase::Flop => {
                let dealt = cleared.board_extended(1);
                TableView {
                    phase: GamePhase::Turn,
                    current_player: next_active(dealt.seats, dealt.dealer_position),
                    ..dealt
                }
            },
            GamePhase::Turn => {
                let dealt = cleared.board_extended(1);
                TableView {
                    phase: GamePhase::River,
                    current_player: next_active(dealt.seats, dealt.dealer_position),
                    ..dealt
                }
            },
            GamePhase::River => (TableView { phase: GamePhase::Showdown, ..cleared }).shown_down(),
            GamePhase::Showdown => cleared,
        }
    }

    /// The table after the phases have run on to the next one in which a seat
    /// can act, or to the showdown.
    pub open spec fn phases_run(self) -> TableView
        decreases phases_left(self.phase),
    {
        let next = self.phase_advanced();
        if self.phase != GamePhase::Showdown && next.phase != GamePhase::Showdown && active_count(
            next.seats,
        ) == 0 {
            next.phases_run()
        } else {
            next
        }
    }

    // -----------------------------------------------------------------------
    // The end of a hand
    // -----------------------------------------------------------------------
    /// The cards that the seat plays at showdown: its own, then the board.
    pub open spec fn seat_cards(self, seat: int) -> Seq<Card> {
        self.seats[seat].hole_cards + self.community_cards
    }

    /// The seat that wins the showdown among the first `k` seats: of the seats
    /// that have not folded the one with the best hand, and of seats with
    /// equally good hands the last.
    pub open spec fn winner_among(self, k: int) -> Option<int>
        decreases k,
    {
        if k <= 0 {
            None
        } else {
            let before = self.winner_among(k - 1);
            if self.seats[k - 1].status == PlayerStatus::Folded {
                before
            } else {
                match before {
                    None => Some(k - 1),
                    Some(w) => if value_order(
                        best_value(self.seat_cards(k - 1)),
                        best_value(self.seat_cards(w)),
                    ) >= 0 {
                        Some(k - 1)
                    } else {
                        Some(w)
                    },
                }
            }
        }
    }

    /// The seat that wins the showdown, if any seat is left in the hand.
    pub open spec fn showdown_winner(self) -> Option<int> {
        self.winner_among(self.seats.len() as int)
    }

    /// The table after the showdown: the winner has the whole pot.
    pub open spec fn shown_down(self) -> TableView {
        match self.showdown_winner() {
            Some(w) => TableView {
                seats: self.seats.update(w, self.seats[w].after_win(self.pot)),
                pot: 0,
                ..self
            },
            None => self,
        }
    }

    /// The table after the one seat that can still act has won the pot without
    /// a showdown. The win is written to the log and kept as the last hand.
    pub open spec fn won_early(self) -> TableView {
        match first_with_status(self.seats, PlayerStatus::Active, 0) {
            Some(w) => TableView {
                seats: self.seats.update(w, self.seats[w].after_win(self.pot)),
                pot: 0,
                action_log: self.action_log.push(
                    self.seats[w].name + " wins "@ + decimal(self.pot as nat)
                        + " chips (opponent folded)"@,
                ),
                last_hand_winner: Some(w),
                last_hand_amount: self.pot,
                last_hand_description: "Adversaire couché"@,
                last_hand_winner_name: Some(self.seats[w].name),
                last_hand_cards: Some(Seq::empty()),
                ..self
            },
            None => self,
        }
    }

    /// The table after the action of the seat and all that follows from it:
    /// the pot is won early, the phases run on, or the turn moves on.
    pub open spec fn action_applied(self, seat: int, action: PlayerAction) -> TableView {
        let acted = self.acted_on(seat, action);
        if acted.round_complete() {
            if acted.sole_survivor() {
                acted.won_early()
            } else {
                acted.phases_run()
            }
        } else {
            acted.turn_advanced()
        }
    }

    /// The action of the seat ends the hand: the pot is won early, or the
    /// phases run on from before the showdown into it.
    pub open spec fn action_ends_hand(self, seat: int, action: PlayerAction) -> bool {
        let acted = self.acted_on(seat, action);
        if acted.round_complete() {
            acted.sole_survivor() || (acted.phase != GamePhase::Showdown
                && acted.phases_run().phase == GamePhase::Showdown)
        } else {
            acted.seats[next_active(acted.seats, acted.current_player)].status
                != PlayerStatus::Active && acted.phase != GamePhase::Showdown
                && acted.phases_run().phase == GamePhase::Showdown
        }
    }

    // -----------------------------------------------------------------------
    // The start of a hand
    // -----------------------------------------------------------------------
    /// The table with the seats reset, the board and the pot empty, the dealer
    /// button moved to the next active seat, and the given deck.
    pub open spec fn hand_prepared(self, deck: Seq<Card>) -> TableView {
        let seats = self.seats.map_values(|seat: SeatView| seat.after_reset());
        TableView {
            seats: seats,
            community_cards: Seq::empty(),
            pot: 0,
            current_bet: 0,
            phase: GamePhase::PreFlop,
            dealer_position: next_active(seats, self.dealer_position),
            acted: Seq::new(self.seats.len(), |i: int| false),
            deck: deck,
            ..self
        }
    }

    /// The table with the blinds posted: the small blind by the first active
    /// seat after the dealer, the big blind by the first active seat after
    /// that. A seat posts what it has if it has less. The table's bet is the
    /// big blind.
    pub open spec fn blinds_posted(self) -> TableView {
        let small = next_active(self.seats, self.dealer_position);
        let big = next_active(self.seats, small);
        let first = self.bet_taken(small, self.small_blind);
        let second = first.bet_taken(big, self.big_blind);
        TableView { current_bet: self.big_blind, ..second }
    }

    /// The table with two cards dealt to every active seat, one card to each
    /// seat in turn and then a second one.
    pub open spec fn hole_cards_dealt(self) -> TableView {
        let n = self.seats.len() as int;
        let (once, left) = round_dealt(self.seats, self.deck, n);
        let (twice, rest) = round_dealt(once, left, n);
        TableView { seats: twice, deck: rest, ..self }
    }

    /// The table with the turn on the first seat to act before the flop: the
    /// third active seat after the dealer.
    pub open spec fn first_turn_set(self) -> TableView {
        let small = next_active(self.seats, self.dealer_position);
        let big = next_active(self.seats, small);
        TableView { current_player: next_active(self.seats, big), ..self }
    }

    /// The table after a hand was started with the given deck. If no seat can
    /// act once the blinds are posted, the phases run on to the showdown.
    pub open spec fn hand_dealt(self, deck: Seq<Card>) -> TableView {
        let dealt = self.hand_prepared(deck).blinds_posted().hole_cards_dealt().first_turn_set();
        if active_count(dealt.seats) == 0 {
            dealt.phases_run()
        } else {
            dealt
        }
    }

    /// The table after a hand was started with the deck `first` and, if that
    /// hand went straight to the showdown, a second one with the deck
    /// `second`.
    pub open spec fn hands_dealt(self, first: Seq<Card>, second: Seq<Card>) -> TableView {
        let once = self.hand_dealt(first);
        if once.phase == GamePhase::Showdown {
            once.hand_dealt(second)
        } else {
            once
        }
    }

    /// The table after the player `id` has asked for the action: as it was if
    /// the action is refused; else with the action applied and, if that ends
    /// the hand, the next hand started with the decks given.
    pub open spec fn action_outcome(
        self,
        id: Seq<char>,
        action: PlayerAction,
        first: Seq<Card>,
        second: Seq<Card>,
    ) -> TableView {
        if self.rejection(id, action) is Some {
            self
        } else if self.action_ends_hand(self.current_player, action) {
            self.action_applied(self.current_player, action).hands_dealt(first, second)
        } else {
            self.action_applied(self.current_player, action)
        }
    }
}

/// The cards are a full deck in some order.
pub open spec fn is_shuffled(deck: Seq<Card>) -> bool {
    deck.to_multiset() == fresh_cards().to_multiset()
}

impl View for GameState {
    type V = TableView;

    open spec fn view(&self) -> TableView {
        TableView {
            seats: seat_views(self.players@),
            community_cards: self.community_cards@,
            pot: self.pot as int,
            current_bet: self.current_bet as int,
            phase: self.phase,
            dealer_position: self.dealer_position as int,
            current_player: self.current_player as int,
            small_blind: self.small_blind as int,
            big_blind: self.big_blind as int,
            acted: self.players_acted@,
            action_log: texts(self.action_log@),
            last_hand_winner: match self.last_hand_winner {
                Some(w) => Some(w as int),
                None => None,
            },
            last_hand_amount: self.last_hand_amount as int,
            last_hand_description: self.last_hand_description@,
            last_hand_winner_name: match self.last_hand_winner_name {
                Some(name) => Some(name@),
                None => None,
            },
            last_hand_cards: match self.last_hand_cards {
                Some(cards) => Some(cards@),
                None => None,
            },
            deck: self.deck@,
        }
    }
}

// ---------------------------------------------------------------------------
// Counting seats and chips
// ---------------------------------------------------------------------------
/// One more seat adds one to the count of its status.
pub proof fn lemma_count_status_step(seats: Seq<SeatView>, i: int, status: PlayerStatus)
    requires
        0 <= i < seats.len(),
    ensures
        count_status(seats.take(i + 1), status) == count_status(seats.take(i), status)
            + if seats[i].status
            == status {
            1nat
        } else {
            0nat
        },
{
    assert(seats.take(i + 1).drop_last() =~= seats.take(i));
}

/// No seat of a status that is counted zero times, and the other way round.
pub proof fn lemma_count_status_none(seats: Seq<SeatView>, status: PlayerStatus)
    ensures
        count_status(seats, status) <= seats.len(),
        count_status(seats, status) == 0 <==> forall|i: int|
            0 <= i < seats.len() ==> (#[trigger] seats[i]).status != status,
    decreases seats.len(),
{
    if seats.len() > 0 {
        lemma_count_status_none(seats.drop_last(), status);
        if count_status(seats, status) == 0 {
            assert forall|i: int| 0 <= i < seats.len() implies (#[trigger] seats[i]).status
                != status by {
                if i < seats.len() - 1 {
                    assert(seats.drop_last()[i] == seats[i]);
                }
            }
        } else {
            if seats.last().status != status {
                let i = choose|i: int|
                    0 <= i < seats.drop_last().len() && (#[trigger] seats.drop_last()[i]).status
                        == status;
                assert(seats[i].status == status);
            }
        }
    }
}

/// Seats with the same statuses are counted alike.
pub proof fn lemma_count_status_same(a: Seq<SeatView>, b: Seq<SeatView>, status: PlayerStatus)
    requires
        a.len() == b.len(),
        forall|i: int| 0 <= i < a.len() ==> (#[trigger] a[i]).status == b[i].status,
    ensures
        count_status(a, status) == count_status(b, status),
    decreases a.len(),
{
    if a.len() > 0 {
        assert forall|i: int| 0 <= i < a.drop_last().len()
            implies (#[trigger] a.drop_last()[i]).status
            == b.drop_last()[i].status by {
            assert(a[i].status == b[i].status);
        }
        lemma_count_status_same(a.drop_last(), b.drop_last(), status);
        assert(a.last() == a[a.len() - 1]);
    }
}

/// Replacing one seat changes the total by the difference of the stacks.
pub proof fn lemma_total_chips_update(seats: Seq<SeatView>, i: int, seat: SeatView)
    requires
        0 <= i < seats.len(),
    ensures
        total_chips(seats.update(i, seat)) == total_chips(seats) - seats[i].chips + seat.chips,
    decreases seats.len(),
{
    if i == seats.len() - 1 {
        assert(seats.update(i, seat).drop_last() =~= seats.drop_last());
    } else {
        assert(seats.update(i, seat).drop_last() =~= seats.drop_last().update(i, seat));
        lemma_total_chips_update(seats.drop_last(), i, seat);
    }
}

/// Seats with the same stacks have the same total.
pub proof fn lemma_total_chips_same(a: Seq<SeatView>, b: Seq<SeatView>)
    requires
        a.len() == b.len(),
        forall|i: int| 0 <= i < a.len() ==> (#[trigger] a[i]).chips == b[i].chips,
    ensures
        total_chips(a) == total_chips(b),
    decreases a.len(),
{
    if a.len() > 0 {
        assert forall|i: int| 0 <= i < a.drop_last().len()
            implies (#[trigger] a.drop_last()[i]).chips
            == b.drop_last()[i].chips by {
            assert(a[i].chips == b[i].chips);
        }
        lemma_total_chips_same(a.drop_last(), b.drop_last());
        assert(a.last() == a[a.len() - 1]);
    }
}

/// Equal stacks add up to the stack times the number of seats.
pub proof fn lemma_total_chips_equal(seats: Seq<SeatView>, chips: int)
    requires
        forall|k: int| 0 <= k < seats.len() ==> (#[trigger] seats[k]).chips == chips,
    ensures
        total_chips(seats) == seats.len() * chips,
    decreases seats.len(),
{
    if seats.len() > 0 {
        let front = seats.drop_last();
        assert forall|k: int| 0 <= k < front.len() implies (#[trigger] front[k]).chips == chips by {
            assert(seats[k].chips == chips);
        }
        lemma_total_chips_equal(front, chips);
        assert(seats.last() == seats[seats.len() - 1]);
        assert(seats.len() * chips == front.len() * chips + chips) by (nonlinear_arith)
            requires
                seats.len() == front.len() + 1,
        ;
    } else {
        assert(seats.len() * chips == 0) by (nonlinear_arith)
            requires
                seats.len() == 0,
        ;
    }
}

/// No stack holds more than all the stacks together.
pub proof fn lemma_stack_within_total(seats: Seq<SeatView>, i: int)
    requires
        0 <= i < seats.len(),
        forall|k: int| 0 <= k < seats.len() ==> (#[trigger] seats[k]).chips >= 0,
    ensures
        0 <= seats[i].chips <= total_chips(seats),
    decreases seats.len(),
{
    let front = seats.drop_last();
    assert forall|k: int| 0 <= k < front.len() implies (#[trigger] front[k]).chips >= 0 by {
        assert(seats[k].chips >= 0);
    }
    lemma_total_chips_positive(front);
    assert(seats.last() == seats[seats.len() - 1]);
    if i < seats.len() - 1 {
        lemma_stack_within_total(front, i);
        assert(front[i] == seats[i]);
    }
}

/// Stacks that are not negative have a total that is not negative.
pub proof fn lemma_total_chips_positive(seats: Seq<SeatView>)
    requires
        forall|k: int| 0 <= k < seats.len() ==> (#[trigger] seats[k]).chips >= 0,
    ensures
        total_chips(seats) >= 0,
    decreases seats.len(),
{
    if seats.len() > 0 {
        let front = seats.drop_last();
        assert forall|k: int| 0 <= k < front.len() implies (#[trigger] front[k]).chips >= 0 by {
            assert(seats[k].chips >= 0);
        }
        lemma_total_chips_positive(front);
        assert(seats.last() == seats[seats.len() - 1]);
    }
}

impl GameState {
    /// The table is in order for betting.
    pub open spec fn wf(&self) -> bool {
        self@.wf()
    }

    /// A hand can be started.
    pub open spec fn ready(&self) -> bool {
        self@.ready()
    }

    /// How many seats have the given status.
    pub fn count_with_status(&self, status: PlayerStatus) -> (count: usize)
        ensures
            count == count_status(self@.seats, status),
    {
        let mut count: usize = 0;
        let mut i: usize = 0;
        while i < self.players.len()
            invariant
                i <= self.players@.len(),
                count <= i,
                count == count_status(self@.seats.take(i as int), status),
            decreases self.players@.len() - i,
        {
            proof {
                lemma_count_status_step(self@.seats, i as int, status);
            }
            if self.players[i].status == status {
                count += 1;
            }
            i += 1;
        }
        assert(self@.seats.take(self.players@.len() as int) =~= self@.seats);
        count
    }

    /// The first active seat after `start_idx`, going once round the table;
    /// `start_idx` if no seat is active.
    pub fn get_next_active_player(&self, start_idx: usize) -> (next: usize)
        requires
            start_idx < self.players@.len(),
        ensures
            next == next_active(self@.seats, start_idx as int),
            next < self.players@.len(),
    {
        let n = self.players.len();
        let mut idx = start_idx;
        let mut k: usize = 0;
        while k < n
            invariant
                n == self.players@.len(),
                idx < n,
                k <= n,
                next_active(self@.seats, start_idx as int) == next_active_within(
                    self@.seats,
                    idx as int,
                    (n - k) as nat,
                ),
            decreases n - k,
        {
            proof {
                if idx + 1 < n {
                    vstd::arithmetic::div_mod::lemma_small_mod((idx + 1) as nat, n as nat);
                } else {
                    vstd::arithmetic::div_mod::lemma_mod_self_0(n as int);
                }
            }
            idx = (idx + 1) % n;
            if self.players[idx].status == PlayerStatus::Active {
                return idx;
            }
            k += 1;
        }
        idx
    }

    /// Whether the betting round is over.
    pub fn is_betting_round_complete(&self) -> (complete: bool)
        requires
            self.players_acted@.len() == self.players@.len(),
        ensures
            complete == self@.round_complete(),
    {
        if self.count_with_status(PlayerStatus::Active) <= 1 {
            return true;
        }
        let mut i: usize = 0;
        while i < self.players.len()
            invariant
                i <= self.players@.len(),
                self.players_acted@.len() == self.players@.len(),
                active_count(self@.seats) > 1,
                forall|k: int|
                    0 <= k < i && (#[trigger] self@.seats[k]).status == PlayerStatus::Active
                        ==> self@.seats[k].chips == 0 || (self@.acted[k]
                        && self@.seats[k].current_bet == self@.current_bet),
            decreases self.players@.len() - i,
        {
            let player = &self.players[i];
            if player.status == PlayerStatus::Active && player.chips != 0 && !(
            self.players_acted[i] && player.current_bet == self.current_bet) {
                assert(self@.seats[i as int].status == PlayerStatus::Active);
                return false;
            }
            i += 1;
        }
        true
    }

    /// Whether one seat can act and no seat is all-in.
    pub fn check_sole_survivor(&self) -> (sole: bool)
        ensures
            sole == self@.sole_survivor(),
    {
        let active_count = self.count_with_status(PlayerStatus::Active);
        let all_in_count = self.count_with_status(PlayerStatus::AllIn);
        active_count == 1 && all_in_count == 0
    }

    /// What the named seat has to add to match the table's bet.
    pub fn to_call(&self, seat: usize) -> (owed: u32)
        requires
            seat < self.players@.len(),
        ensures
            owed == self@.owed(seat as int),
    {
        if self.players[seat].current_bet < self.current_bet {
            self.current_bet - self.players[seat].current_bet
        } else {
            0
        }
    }

    /// The least amount by which a raise may lift the table's bet.
    pub fn min_raise(&self) -> (least: u32)
        ensures
            least == self@.min_raise(),
    {
        if self.big_blind >= self.current_bet {
            self.big_blind
        } else {
            self.current_bet
        }
    }

    /// What the seat on turn may do.
    pub fn get_valid_actions(&self) -> (actions: Vec<PlayerAction>)
        requires
            self.phase != GamePhase::Showdown ==> self.current_player < self.players@.len(),
        ensures
            actions@ == self@.legal_actions(),
    {
        let mut actions: Vec<PlayerAction> = Vec::new();
        if self.phase == GamePhase::Showdown {
            return actions;
        }
        let player = &self.players[self.current_player];
        if player.status != PlayerStatus::Active {
            return actions;
        }
        actions.push(PlayerAction::Fold);
        let to_call = self.to_call(self.current_player);
        let min_raise = self.min_raise();
        if to_call == 0 {
            actions.push(PlayerAction::Check);
        } else if player.chips >= to_call {
            actions.push(PlayerAction::Call);
        }
        if player.chips as u64 > to_call as u64 + min_raise as u64 {
            actions.push(PlayerAction::Raise(min_raise));
        }
        if player.chips > 0 {
            actions.push(PlayerAction::AllIn);
        }
        assert(actions@ =~= self@.legal_actions());
        actions
    }

    /// The seat of the player `player_id`, if they have one.
    pub fn find_seat(&self, player_id: &PlayerId) -> (seat: Option<usize>)
        ensures
            seat_of(self@.seats, player_id@, 0) == match seat {
                Some(i) => Some(i as int),
                None => None,
            },
            seat matches Some(i) ==> i < self.players@.len() && self.players@[i as int].id@
                == player_id@,
    {
        let mut i: usize = 0;
        while i < self.players.len()
            invariant
                i <= self.players@.len(),
                seat_of(self@.seats, player_id@, 0) == seat_of(self@.seats, player_id@, i as int),
            decreases self.players@.len() - i,
        {
            if self.players[i].id == *player_id {
                return Some(i);
            }
            i += 1;
        }
        None
    }
}

/// The identities and names of the players as texts.
pub open spec fn entry_views(players: Seq<(PlayerId, String)>) -> Seq<(Seq<char>, Seq<char>)> {
    players.map_values(|entry: (PlayerId, String)| (entry.0@, entry.1@))
}

impl GameState {
    /// A new table with a seat of `starting_chips` chips for each player, in
    /// the order given. It is in order for betting if it has one to
    /// twenty-two seats whose chips fit in one stack.
    pub fn new(
        player_ids: Vec<(PlayerId, String)>,
        starting_chips: u32,
        small_blind: u32,
        big_blind: u32,
    ) -> (game: GameState)
        ensures
            game@ == TableView::initial(
                entry_views(player_ids@),
                starting_chips as int,
                small_blind as int,
                big_blind as int,
            ),
            game.wf() <==> 1 <= player_ids@.len() <= MAX_SEATS && player_ids@.len() * starting_chips
                <= u32::MAX,
    {
        let mut players: Vec<Player> = Vec::new();
        let mut players_acted: Vec<bool> = Vec::new();
        let mut i: usize = 0;
        while i < player_ids.len()
            invariant
                i <= player_ids@.len(),
                players@.len() == i,
                players_acted@.len() == i,
                forall|k: int| 0 <= k < i ==> !(#[trigger] players_acted@[k]),
                forall|k: int|
                    0 <= k < i ==> (#[trigger] players@[k])@ == (SeatView {
                        id: player_ids@[k].0@,
                        name: player_ids@[k].1@,
                        chips: starting_chips as int,
                        hole_cards: Seq::empty(),
                        current_bet: 0,
                        status: PlayerStatus::Active,
                    }),
            decreases player_ids@.len() - i,
        {
            let id = player_ids[i].0.clone();
            let name = player_ids[i].1.clone();
            players.push(Player::new(id, name, starting_chips));
            players_acted.push(false);
            i += 1;
        }
        let game = GameState {
            players,
            community_cards: Vec::new(),
            pot: 0,
            current_bet: 0,
            phase: GamePhase::PreFlop,
            dealer_position: 0,
            current_player: 0,
            small_blind,
            big_blind,
            players_acted,
            deck: Deck::new(),
            action_log: Vec::new(),
            last_hand_winner: None,
            last_hand_amount: 0,
            last_hand_description: String::new(),
            last_hand_winner_name: None,
            last_hand_cards: None,
        };
        proof {
            let table = TableView::initial(
                entry_views(player_ids@),
                starting_chips as int,
                small_blind as int,
                big_blind as int,
            );
            assert(game@.seats =~= table.seats);
            assert(game@.acted =~= table.acted);
            assert(game@.action_log =~= table.action_log);
            assert(game@ == table);
            lemma_total_chips_equal(table.seats, starting_chips as int);
        }
        game
    }
}

/// A bet moves chips from a stack to the pot: the table stays ready for a
/// hand, and no chip is lost or made.
pub proof fn lemma_bet_taken(table: TableView, seat: int, amount: int)
    requires
        table.ready(),
        table.bets_within(),
        0 <= seat < table.seats.len(),
        0 <= amount,
    ensures
        table.bet_taken(seat, amount).ready(),
        table.bet_taken(seat, amount).bets_within(),
        total_chips(table.bet_taken(seat, amount).seats) + table.bet_taken(seat, amount).pot
            == total_chips(table.seats) + table.pot,
        0 <= table.seats[seat].paid(amount) <= table.seats[seat].chips,
        table.seats[seat].chips <= total_chips(table.seats),
{
    let after = table.bet_taken(seat, amount);
    lemma_stack_within_total(table.seats, seat);
    lemma_total_chips_update(table.seats, seat, table.seats[seat].after_bet(amount));
    assert forall|i: int| 0 <= i < after.seats.len() implies (#[trigger] after.seats[i]).chips >= 0
        && 0 <= after.seats[i].current_bet <= after.pot by {
        if i != seat {
            assert(after.seats[i] == table.seats[i]);
        }
    }
}

impl GameState {
    /// Takes a bet of `amount` from the seat, or its whole stack if that is
    /// less, into the pot.
    fn take_bet(&mut self, seat: usize, amount: u32) -> (paid: u32)
        requires
            old(self)@.ready(),
            old(self)@.bets_within(),
            seat < old(self).players@.len(),
        ensures
            paid == old(self)@.seats[seat as int].paid(amount as int),
            final(self)@ == old(self)@.bet_taken(seat as int, amount as int),
            final(self).players@.len() == old(self).players@.len(),
    {
        proof {
            lemma_bet_taken(self@, seat as int, amount as int);
        }
        let paid = self.players[seat].bet(amount);
        self.pot += paid;
        proof {
            assert(self@.seats =~= old(self)@.bet_taken(seat as int, amount as int).seats);
        }
        paid
    }

    /// Sets the seat's flag: it has acted in this round.
    fn mark_acted(&mut self, seat: usize)
        requires
            seat < old(self).players_acted@.len(),
        ensures
            final(self)@ == old(self)@.marked(seat as int),
    {
        self.players_acted[seat] = true;
        assert(self@.acted =~= old(self)@.marked(seat as int).acted);
    }

    /// Clears every flag: the round is open again.
    fn reopen_round(&mut self)
        ensures
            final(self)@ == old(self)@.reopened(),
            final(self).players@ == old(self).players@,
    {
        let mut i: usize = 0;
        while i < self.players_acted.len()
            invariant
                i <= self.players_acted@.len(),
                self.players_acted@.len() == old(self).players_acted@.len(),
                forall|k: int| 0 <= k < i ==> !(#[trigger] self.players_acted@[k]),
                self@ == (TableView { acted: self@.acted, ..old(self)@ }),
                self.players@ == old(self).players@,
            decreases self.players_acted@.len() - i,
        {
            self.players_acted[i] = false;
            i += 1;
        }
        assert(self@.acted =~= old(self)@.reopened().acted);
    }

    /// Adds an entry to the log.
    fn log(&mut self, entry: String)
        ensures
            final(self)@ == old(self)@.logged(entry@),
    {
        self.action_log.push(entry);
        assert(self@.action_log =~= old(self)@.logged(entry@).action_log);
    }

    /// Carries out the action of the seat: the bet, the flags and the log. The
    /// turn does not move yet.
    fn perform(&mut self, seat: usize, action: PlayerAction)
        requires
            old(self).wf(),
            seat < old(self).players@.len(),
            action matches PlayerAction::Raise(amount) ==> old(self).current_bet + amount
                <= u32::MAX,
        ensures
            final(self)@ == old(self)@.acted_on(seat as int, action),
    {
        let mut entry = self.players[seat].name.clone();
        match action {
            PlayerAction::Fold => {
                self.players[seat].fold();
                assert(self@.seats =~= old(self)@.seats.update(
                    seat as int,
                    old(self)@.seats[seat as int].after_fold(),
                ));
                self.mark_acted(seat);
                entry.append(" folds");
            },
            PlayerAction::Check => {
                self.mark_acted(seat);
                entry.append(" checks");
            },
            PlayerAction::Call => {
                let call_amount = self.to_call(seat);
                let actual_bet = self.take_bet(seat, call_amount);
                self.mark_acted(seat);
                entry.append(" calls ");
                entry.append(decimal_string(actual_bet as u64).as_str());
            },
            PlayerAction::Raise(amount) => {
                let total_bet = self.current_bet + amount;
                let to_call = self.to_call(seat);
                self.take_bet(seat, to_call + amount);
                self.current_bet = total_bet;
                self.reopen_round();
                self.mark_acted(seat);
                entry.append(" raises to ");
                entry.append(decimal_string(total_bet as u64).as_str());
            },
            PlayerAction::AllIn => {
                let all_in_amount = self.players[seat].chips;
                self.take_bet(seat, all_in_amount);
                if self.players[seat].current_bet > self.current_bet {
                    self.current_bet = self.players[seat].current_bet;
                    self.reopen_round();
                }
                self.mark_acted(seat);
                entry.append(" goes all-in with ");
                entry.append(decimal_string(all_in_amount as u64).as_str());
            },
        }
        self.log(entry);
    }
}

/// Going round the table from a seat ends on a seat.
pub proof fn lemma_next_active_within_range(seats: Seq<SeatView>, seat: int, left: nat)
    requires
        0 <= seat < seats.len(),
    ensures
        0 <= next_active_within(seats, seat, left) < seats.len(),
    decreases left,
{
    if left > 0 {
        let next = seat_after(seat, seats.len() as int);
        if seats[next].status != PlayerStatus::Active {
            lemma_next_active_within_range(seats, next, (left - 1) as nat);
        }
    }
}

/// With a deck that holds enough cards, the board gets `count` cards and the
/// deck loses them and the burnt one.
pub proof fn lemma_board_extended(table: TableView, count: nat)
    requires
        table.deck.len() >= count + 1,
    ensures
        table.board_extended(count).community_cards.len() == table.community_cards.len() + count,
        table.board_extended(count).deck.len() == table.deck.len() - count - 1,
        table.board_extended(count) == (TableView {
            community_cards: table.board_extended(count).community_cards,
            deck: table.board_extended(count).deck,
            ..table
        }),
    decreases count,
{
    if count > 0 {
        lemma_board_extended(table, (count - 1) as nat);
    }
}

impl GameState {
    /// Clears what the seats have bet in this round, the table's bet, and the
    /// flags of the seats that have acted.
    fn clear_round(&mut self)
        ensures
            final(self)@ == old(self)@.round_cleared(),
            final(self).players@.len() == old(self).players@.len(),
    {
        let mut i: usize = 0;
        while i < self.players.len()
            invariant
                i <= self.players@.len(),
                self.players@.len() == old(self).players@.len(),
                forall|k: int|
                    0 <= k < i
                        ==> (#[trigger] self.players@[k])@ == old(self).players@[k]@.after_round(),
                forall|k: int|
                    i <= k < self.players@.len()
                        ==> (#[trigger] self.players@[k]) == old(self).players@[k],
                self@ == (TableView { seats: self@.seats, ..old(self)@ }),
            decreases self.players@.len() - i,
        {
            self.players[i].current_bet = 0;
            i += 1;
        }
        self.current_bet = 0;
        assert(self@.seats =~= old(self)@.round_cleared().seats);
        self.reopen_round();
    }

    /// Burns a card and deals `count` cards to the board, as far as the deck
    /// goes.
    fn deal_board(&mut self, count: usize)
        ensures
            final(self)@ == old(self)@.board_extended(count as nat),
            final(self).players@ == old(self).players@,
    {
        self.deck.deal();
        let mut k: usize = 0;
        while k < count
            invariant
                k <= count,
                self@ == old(self)@.board_extended(k as nat),
                self.players@ == old(self).players@,
            decreases count - k,
        {
            if let Some(card) = self.deck.deal() {
                self.community_cards.push(card);
            }
            k += 1;
        }
    }

    /// Burns a card and deals the three cards of the flop.
    pub fn deal_flop(&mut self)
        ensures
            final(self)@ == old(self)@.board_extended(3),
            final(self).players@ == old(self).players@,
    {
        self.deal_board(3);
    }

    /// Burns a card and deals the turn card.
    pub fn deal_turn(&mut self)
        ensures
            final(self)@ == old(self)@.board_extended(1),
            final(self).players@ == old(self).players@,
    {
        self.deal_board(1);
    }

    /// Burns a card and deals the river card.
    pub fn deal_river(&mut self)
        ensures
            final(self)@ == old(self)@.board_extended(1),
            final(self).players@ == old(self).players@,
    {
        self.deal_board(1);
    }

    /// The cards that the seat plays at showdown: its own, then the board.
    pub fn cards_of(&self, seat: usize) -> (cards: Vec<Card>)
        requires
            seat < self.players@.len(),
        ensures
            cards@ == self@.seat_cards(seat as int),
    {
        let mut cards: Vec<Card> = Vec::new();
        let hole = &self.players[seat].hole_cards;
        let mut i: usize = 0;
        while i < hole.len()
            invariant
                i <= hole@.len(),
                cards@ == hole@.take(i as int),
            decreases hole@.len() - i,
        {
            cards.push(hole[i]);
            assert(cards@ =~= hole@.take(i + 1));
            i += 1;
        }
        assert(cards@ =~= hole@);
        let mut k: usize = 0;
        while k < self.community_cards.len()
            invariant
                k <= self.community_cards@.len(),
                cards@ == hole@ + self.community_cards@.take(k as int),
            decreases self.community_cards@.len() - k,
        {
            cards.push(self.community_cards[k]);
            assert(cards@ =~= hole@ + self.community_cards@.take(k + 1));
            k += 1;
        }
        assert(cards@ =~= hole@ + self.community_cards@);
        cards
    }

    /// The seat that wins the showdown: of the seats that have not folded the
    /// one with the best hand; of equally good hands, the last seat.
    pub fn find_showdown_winner(&self) -> (winner: Option<usize>)
        requires
            self@.community_cards.len() == 5,
            forall|i: int|
                0 <= i < self@.seats.len() ==> (#[trigger] self@.seats[i]).hole_cards.len() <= 2,
        ensures
            self@.showdown_winner() == match winner {
                Some(w) => Some(w as int),
                None => None,
            },
            winner matches Some(w) ==> w < self.players@.len(),
    {
        let mut winner: Option<usize> = None;
        let mut best: Option<Hand> = None;
        let mut idx: usize = 0;
        while idx < self.players.len()
            invariant
                idx <= self.players@.len(),
                self.community_cards@.len() == 5,
                forall|i: int|
                    0 <= i < self@.seats.len() ==> (#[trigger] self@.seats[i]).hole_cards.len()
                        <= 2,
                match winner {
                    Some(w) => w < idx && self@.winner_among(idx as int) == Some(w as int)
                        && best is Some && best->0.value() == best_value(
                        self@.seat_cards(w as int),
                    ),
                    None => self@.winner_among(idx as int) is None && best is None,
                },
            decreases self.players@.len() - idx,
        {
            if self.players[idx].status != PlayerStatus::Folded {
                assert(self@.seats[idx as int].hole_cards.len() <= 2);
                let all_cards = self.cards_of(idx);
                let hand = Hand::evaluate(all_cards.as_slice());
                proof {
                    lemma_best_value(hand, all_cards@);
                }
                match best {
                    None => {
                        best = Some(hand);
                        winner = Some(idx);
                    },
                    Some(current) => {
                        if hand.compare(&current) >= 0 {
                            best = Some(hand);
                            winner = Some(idx);
                        } else {
                            best = Some(current);
                        }
                    },
                }
            }
            idx += 1;
        }
        winner
    }

    /// Compares the hands of the seats that have not folded and gives the pot
    /// to the best one; of equally good hands, to the last seat.
    pub fn showdown(&mut self)
        requires
            old(self)@.ready(),
            old(self)@.community_cards.len() == 5,
            forall|i: int|
                0 <= i < old(self)@.seats.len()
                    ==> (#[trigger] old(self)@.seats[i]).hole_cards.len() <= 2,
        ensures
            final(self)@ == old(self)@.shown_down(),
            final(self).players@.len() == old(self).players@.len(),
    {
        match self.find_showdown_winner() {
            Some(w) => {
                proof {
                    lemma_stack_within_total(self@.seats, w as int);
                }
                self.players[w].chips += self.pot;
                self.pot = 0;
                assert(self@.seats =~= old(self)@.shown_down().seats);
            },
            None => {},
        }
    }
}

/// The winner of a showdown is one of the seats looked at, and has not folded.
pub proof fn lemma_winner_among(table: TableView, k: int)
    requires
        0 <= k <= table.seats.len(),
    ensures
        table.winner_among(k) matches Some(w) ==> 0 <= w < k && table.seats[w].status
            != PlayerStatus::Folded,
        table.winner_among(k) is None <==> forall|i: int|
            0 <= i < k ==> (#[trigger] table.seats[i]).status == PlayerStatus::Folded,
    decreases k,
{
    if k > 0 {
        lemma_winner_among(table, k - 1);
    }
}

/// Clearing the bets of a round keeps the table in order and the chips where
/// they are.
pub proof fn lemma_round_cleared(table: TableView)
    requires
        table.wf(),
    ensures
        table.round_cleared().wf(),
        table.round_cleared().seats.len() == table.seats.len(),
        total_chips(table.round_cleared().seats) == total_chips(table.seats),
        forall|i: int|
            0 <= i < table.seats.len() ==> (#[trigger] table.round_cleared().seats[i])
                == table.seats[i].after_round(),
{
    let cleared = table.round_cleared();
    lemma_total_chips_same(cleared.seats, table.seats);
}

/// Going on to the next phase keeps the table in order, and no chip is lost or
/// made.
pub proof fn lemma_phase_advanced(table: TableView)
    requires
        table.wf(),
    ensures
        table.phase_advanced().wf(),
        table.phase_advanced().seats.len() == table.seats.len(),
        table.phase_advanced().chips_in_play() == table.chips_in_play(),
        table.phase != GamePhase::Showdown ==> phases_left(table.phase_advanced().phase)
            == phases_left(table.phase) - 1,
        table.phase == GamePhase::Showdown ==> table.phase_advanced().phase
            == GamePhase::Showdown,
{
    let cleared = table.round_cleared();
    lemma_round_cleared(table);
    match table.phase {
        GamePhase::PreFlop => {
            lemma_board_extended(cleared, 3);
            lemma_next_active_within_range(
                cleared.seats,
                cleared.dealer_position,
                cleared.seats.len(),
            );
        },
        GamePhase::Flop => {
            lemma_board_extended(cleared, 1);
            lemma_next_active_within_range(
                cleared.seats,
                cleared.dealer_position,
                cleared.seats.len(),
            );
        },
        GamePhase::Turn => {
            lemma_board_extended(cleared, 1);
            lemma_next_active_within_range(
                cleared.seats,
                cleared.dealer_position,
                cleared.seats.len(),
            );
        },
        GamePhase::River => {
            let at_showdown = TableView { phase: GamePhase::Showdown, ..cleared };
            lemma_winner_among(at_showdown, at_showdown.seats.len() as int);
            match at_showdown.showdown_winner() {
                Some(w) => {
                    lemma_total_chips_update(
                        at_showdown.seats,
                        w,
                        at_showdown.seats[w].after_win(at_showdown.pot),
                    );
                    let after = at_showdown.shown_down();
                    assert forall|i: int| 0 <= i < after.seats.len() implies (
                    #[trigger] after.seats[i]).chips >= 0 && after.seats[i].current_bet == 0
                        && after.seats[i].hole_cards.len() <= 2 by {
                        assert(cleared.seats[i] == table.seats[i].after_round());
                        assert(table.seats[i].hole_cards.len() <= 2);
                    }
                },
                None => {},
            }
        },
        GamePhase::Showdown => {},
    }
}

/// Running the phases on keeps the table in order, and no chip is made.
pub proof fn lemma_phases_run(table: TableView)
    requires
        table.wf(),
    ensures
        table.phases_run().wf(),
        table.phases_run().seats.len() == table.seats.len(),
        table.phases_run().chips_in_play() == table.chips_in_play(),
    decreases phases_left(table.phase),
{
    lemma_phase_advanced(table);
    let next = table.phase_advanced();
    if table.phase != GamePhase::Showdown && next.phase != GamePhase::Showdown && active_count(
        next.seats,
    ) == 0 {
        lemma_phases_run(next);
    }
}

/// An action keeps the table in order, and no chip is lost or made.
pub proof fn lemma_acted_on(table: TableView, seat: int, action: PlayerAction)
    requires
        table.wf(),
        0 <= seat < table.seats.len(),
        action matches PlayerAction::Raise(amount) ==> table.current_bet + amount <= u32::MAX,
    ensures
        table.acted_on(seat, action).wf(),
        table.acted_on(seat, action).seats.len() == table.seats.len(),
        table.acted_on(seat, action).phase == table.phase,
        total_chips(table.acted_on(seat, action).seats) + table.acted_on(seat, action).pot
            == total_chips(table.seats) + table.pot,
{
    let after = table.acted_on(seat, action);
    match action {
        PlayerAction::Fold => {
            lemma_total_chips_update(table.seats, seat, table.seats[seat].after_fold());
            assert forall|i: int| 0 <= i < after.seats.len() implies (
            #[trigger] after.seats[i]).chips >= 0 && 0 <= after.seats[i].current_bet <= after.pot
                && after.seats[i].hole_cards.len() <= 2 by {
                assert(table.seats[i].hole_cards.len() <= 2);
                assert(table.seats[i].chips >= 0);
            }
        },
        PlayerAction::Check => {},
        PlayerAction::Call => {
            lemma_bet_taken(table, seat, table.owed(seat));
            let paid = table.bet_taken(seat, table.owed(seat));
            assert forall|i: int| 0 <= i < after.seats.len() implies (
            #[trigger] after.seats[i]).hole_cards.len() <= 2 by {
                assert(table.seats[i].hole_cards.len() <= 2);
            }
        },
        PlayerAction::Raise(amount) => {
            lemma_bet_taken(table, seat, table.owed(seat) + amount);
            assert forall|i: int| 0 <= i < after.seats.len() implies (
            #[trigger] after.seats[i]).hole_cards.len() <= 2 by {
                assert(table.seats[i].hole_cards.len() <= 2);
            }
        },
        PlayerAction::AllIn => {
            lemma_bet_taken(table, seat, table.seats[seat].chips);
            assert forall|i: int| 0 <= i < after.seats.len() implies (
            #[trigger] after.seats[i]).hole_cards.len() <= 2 by {
                assert(table.seats[i].hole_cards.len() <= 2);
            }
        },
    }
}

/// The first seat of a status, if there is one, is a seat of that status.
pub proof fn lemma_first_with_status(seats: Seq<SeatView>, status: PlayerStatus, from: int)
    requires
        0 <= from,
    ensures
        first_with_status(seats, status, from) matches Some(w) ==> from <= w < seats.len()
            && seats[w].status == status,
    decreases seats.len() - from,
{
    if from < seats.len() && seats[from].status != status {
        lemma_first_with_status(seats, status, from + 1);
    }
}

/// A pot won early leaves a table on which a hand can be started, and no chip
/// is lost or made.
pub proof fn lemma_won_early(table: TableView)
    requires
        table.ready(),
    ensures
        table.won_early().ready(),
        table.won_early().seats.len() == table.seats.len(),
        total_chips(table.won_early().seats) + table.won_early().pot == total_chips(table.seats)
            + table.pot,
        table.cards_fit() ==> table.won_early().cards_fit(),
{
    lemma_first_with_status(table.seats, PlayerStatus::Active, 0);
    match first_with_status(table.seats, PlayerStatus::Active, 0) {
        Some(w) => {
            lemma_total_chips_update(table.seats, w, table.seats[w].after_win(table.pot));
            let after = table.won_early();
            assert forall|i: int| 0 <= i < after.seats.len() implies (
            #[trigger] after.seats[i]).chips >= 0 && after.seats[i].hole_cards
                == table.seats[i].hole_cards by {
                assert(table.seats[i].chips >= 0);
            }
            if table.cards_fit() {
                assert forall|i: int| 0 <= i < after.seats.len() implies (
                #[trigger] after.seats[i]).hole_cards.len() <= 2 by {
                    assert(table.seats[i].hole_cards.len() <= 2);
                }
            }
        },
        None => {},
    }
}

impl GameState {
    /// Goes on to the next phase: clears the bets of the round, deals the
    /// cards of the phase and sets the turn, or holds the showdown after the
    /// river.
    fn step_phase(&mut self)
        requires
            old(self).wf(),
        ensures
            final(self)@ == old(self)@.phase_advanced(),
            final(self).wf(),
            final(self).players@.len() == old(self).players@.len(),
    {
        proof {
            lemma_phase_advanced(self@);
            lemma_round_cleared(self@);
            assert(self@.seats.len() == self.players@.len());
        }
        self.clear_round();
        match self.phase {
            GamePhase::PreFlop => {
                proof {
                    lemma_board_extended(self@, 3);
                }
                self.deal_flop();
                self.phase = GamePhase::Flop;
                self.current_player = self.get_next_active_player(self.dealer_position);
            },
            GamePhase::Flop => {
                proof {
                    lemma_board_extended(self@, 1);
                }
                self.deal_turn();
                self.phase = GamePhase::Turn;
                self.current_player = self.get_next_active_player(self.dealer_position);
            },
            GamePhase::Turn => {
                proof {
                    lemma_board_extended(self@, 1);
                }
                self.deal_river();
                self.phase = GamePhase::River;
                self.current_player = self.get_next_active_player(self.dealer_position);
            },
            GamePhase::River => {
                self.phase = GamePhase::Showdown;
                proof {
                    assert forall|i: int| 0 <= i < self@.seats.len() implies (
                    #[trigger] self@.seats[i]).hole_cards.len() <= 2 by {
                        assert(old(self)@.seats[i].hole_cards.len() <= 2);
                    }
                }
                self.showdown();
            },
            GamePhase::Showdown => {},
        }
    }

    /// Goes on to the next phase, and further while no seat can act, up to the
    /// showdown.
    pub fn advance_phase(&mut self)
        requires
            old(self).wf(),
        ensures
            final(self)@ == old(self)@.phases_run(),
            final(self).wf(),
            final(self).players@.len() == old(self).players@.len(),
    {
        loop
            invariant
                self.wf(),
                self.players@.len() == old(self).players@.len(),
                old(self)@.phases_run() == self@.phases_run(),
            decreases phases_left(self.phase),
        {
            let at_showdown = self.phase == GamePhase::Showdown;
            proof {
                lemma_phase_advanced(self@);
            }
            self.step_phase();
            if at_showdown || self.phase == GamePhase::Showdown || self.count_with_status(
                PlayerStatus::Active,
            ) != 0 {
                return ;
            }
        }
    }

    /// Gives the pot to the one seat that can still act, and notes the win in
    /// the log and as the last hand.
    pub fn end_hand_early(&mut self)
        requires
            old(self)@.ready(),
        ensures
            final(self)@ == old(self)@.won_early(),
            final(self)@.ready(),
            final(self).players@.len() == old(self).players@.len(),
    {
        let mut idx: usize = 0;
        while idx < self.players.len()
            invariant
                idx <= self.players@.len(),
                self@ == old(self)@,
                self@.ready(),
                self.players@.len() == old(self).players@.len(),
                first_with_status(self@.seats, PlayerStatus::Active, 0) == first_with_status(
                    self@.seats,
                    PlayerStatus::Active,
                    idx as int,
                ),
            decreases self.players@.len() - idx,
        {
            if self.players[idx].status == PlayerStatus::Active {
                let winner_name = self.players[idx].name.clone();
                proof {
                    lemma_won_early(self@);
                    lemma_stack_within_total(self@.seats, idx as int);
                }
                self.players[idx].chips += self.pot;
                let mut entry = winner_name.clone();
                entry.append(" wins ");
                entry.append(decimal_string(self.pot as u64).as_str());
                entry.append(" chips (opponent folded)");
                self.action_log.push(entry);
                self.last_hand_winner = Some(idx);
                self.last_hand_amount = self.pot;
                self.last_hand_description = String::from_str("Adversaire couché");
                self.last_hand_winner_name = Some(winner_name);
                self.last_hand_cards = Some(Vec::new());
                self.pot = 0;
                proof {
                    let after = old(self)@.won_early();
                    assert(self@.seats =~= after.seats);
                    assert(self@.action_log =~= after.action_log);
                    assert(self@.last_hand_cards == after.last_hand_cards);
                }
                return ;
            }
            idx += 1;
        }
    }

    /// Moves the turn to the next seat that can act. Should there be none, the
    /// phases run on instead; the result says whether they did.
    pub fn advance_to_next_player(&mut self) -> (ran: bool)
        requires
            old(self).wf(),
        ensures
            final(self)@ == old(self)@.turn_advanced(),
            ran == (old(self)@.seats[next_active(
                old(self)@.seats,
                old(self)@.current_player,
            )].status != PlayerStatus::Active),
            final(self).wf(),
            final(self).players@.len() == old(self).players@.len(),
    {
        let next = self.get_next_active_player(self.current_player);
        if self.players[next].status == PlayerStatus::Active {
            self.current_player = next;
            false
        } else {
            self.advance_phase();
            true
        }
    }

    /// Applies the action of the player `player_id` with all that follows from
    /// it within the hand, or refuses it and leaves the table as it is. The
    /// result says whether the hand is over, so that a new one is due.
    pub fn apply_action(&mut self, player_id: &PlayerId, action: PlayerAction) -> (result: Result<
        bool,
        String,
    >)
        requires
            old(self).wf(),
        ensures
            match result {
                Err(reason) => old(self)@.rejection(player_id@, action) == Some(reason@)
                    && final(self)@ == old(self)@,
                Ok(over) => old(self)@.rejection(player_id@, action) is None && final(self)@
                    == old(self)@.action_applied(old(self)@.current_player, action)
                        && over == old(self)@.action_ends_hand(old(self)@.current_player, action),
            },
            final(self)@.ready(),
            final(self).players@.len() == old(self).players@.len(),
            result matches Ok(over) ==> over || final(self).wf(),
            result is Err ==> final(self).wf(),
            final(self)@.chips_in_play() == old(self)@.chips_in_play(),
            cards_distinct(old(self)@) ==> cards_distinct(final(self)@),
            same_players(final(self)@.seats, old(self)@.seats),
            final(self)@.cards_fit(),
            result matches Ok(over) ==> over || final(self)@.turn_is_live(),
            old(self)@.actives_have_chips() ==> final(self)@.actives_have_chips(),
    {
        let seat = match self.find_seat(player_id) {
            Some(seat) => seat,
            None => {
                return Err(String::from_str("Joueur non trouvé"));
            },
        };
        if seat != self.current_player {
            return Err(String::from_str("Ce n'est pas le tour de ce joueur"));
        }
        let status = self.players[seat].status;
        if status != PlayerStatus::Active {
            let mut reason = String::from_str("Le joueur ne peut pas agir (statut: ");
            reason.append(status_str(status));
            reason.append(")");
            return Err(reason);
        }
        match action {
            PlayerAction::Check => {
                if self.to_call(seat) > 0 {
                    return Err(
                        String::from_str("Impossible de checker, il faut suivre ou se coucher"),
                    );
                }
            },
            PlayerAction::Raise(amount) => {
                let min_raise = self.min_raise();
                if amount < min_raise {
                    let mut reason = String::from_str("Raise trop petit. Minimum: ");
                    reason.append(decimal_string(min_raise as u64).as_str());
                    reason.append(" (big blind: ");
                    reason.append(decimal_string(self.big_blind as u64).as_str());
                    reason.append(", current bet: ");
                    reason.append(decimal_string(self.current_bet as u64).as_str());
                    reason.append(")");
                    return Err(reason);
                }
                let room = u32::MAX - self.current_bet;
                if amount > room {
                    let mut reason = String::from_str("Raise trop grand. Maximum: ");
                    reason.append(decimal_string(room as u64).as_str());
                    return Err(reason);
                }
            },
            _ => {},
        }
        let at_showdown = self.phase == GamePhase::Showdown;
        proof {
            lemma_acted_on(self@, seat as int, action);
            lemma_action_applied_ids(self@, seat as int, action);
            lemma_action_applied_live(self@, seat as int, action);
            if cards_distinct(self@) {
                lemma_action_applied_distinct(self@, seat as int, action);
            }
        }
        self.perform(seat, action);
        proof {
            lemma_phases_run(self@);
            lemma_won_early(self@);
        }
        if self.is_betting_round_complete() {
            if self.check_sole_survivor() {
                self.end_hand_early();
                Ok(true)
            } else {
                self.advance_phase();
                Ok(!at_showdown && self.phase == GamePhase::Showdown)
            }
        } else {
            let ran = self.advance_to_next_player();
            Ok(ran && !at_showdown && self.phase == GamePhase::Showdown)
        }
    }
}

/// How a status is written.
pub fn status_str(status: PlayerStatus) -> (name: &'static str)
    ensures
        name@ == status_name(status),
{
    match status {
        PlayerStatus::Active => "Active",
        PlayerStatus::Folded => "Folded",
        PlayerStatus::AllIn => "AllIn",
        PlayerStatus::SittingOut => "SittingOut",
        PlayerStatus::Eliminated => "Eliminated",
    }
}

/// A round of dealing changes nothing about the seats but their cards: each
/// seat gets at most one card, and the deck loses at most one card for each
/// seat.
pub proof fn lemma_round_dealt(seats: Seq<SeatView>, deck: Seq<Card>, k: int)
    requires
        0 <= k <= seats.len(),
    ensures
        round_dealt(seats, deck, k).0.len() == seats.len(),
        deck.len() - k <= round_dealt(seats, deck, k).1.len() <= deck.len(),
        forall|i: int|
            0 <= i < seats.len() ==> {
                let after = #[trigger] round_dealt(seats, deck, k).0[i];
                &&& after.chips == seats[i].chips
                &&& after.current_bet == seats[i].current_bet
                &&& after.status == seats[i].status
                &&& after.id == seats[i].id
                &&& after.name == seats[i].name
                &&& seats[i].hole_cards.len() <= after.hole_cards.len() <= seats[i].hole_cards.len()
                    + 1
                &&& i >= k ==> after == seats[i]
            },
    decreases k,
{
    if k > 0 {
        lemma_round_dealt(seats, deck, k - 1);
        let (dealt, left) = round_dealt(seats, deck, k - 1);
        assert(dealt[k - 1] == seats[k - 1]);
        assert forall|i: int| 0 <= i < seats.len() implies {
            let after = #[trigger] round_dealt(seats, deck, k).0[i];
            &&& after.chips == seats[i].chips
            &&& after.current_bet == seats[i].current_bet
            &&& after.status == seats[i].status
            &&& after.id == seats[i].id
            &&& after.name == seats[i].name
            &&& seats[i].hole_cards.len() <= after.hole_cards.len() <= seats[i].hole_cards.len()
                + 1
            &&& i >= k ==> after == seats[i]
        } by {
            assert(dealt[i].chips == seats[i].chips);
        }
    }
}

/// Getting ready for a hand leaves the chips in the stacks, empties the pot
/// and the seats' hands, and puts the dealer button on a seat.
pub proof fn lemma_hand_prepared(table: TableView, deck: Seq<Card>)
    requires
        table.ready(),
    ensures
        table.hand_prepared(deck).ready(),
        table.hand_prepared(deck).bets_within(),
        table.hand_prepared(deck).seats.len() == table.seats.len(),
        table.hand_prepared(deck).acted.len() == table.seats.len(),
        total_chips(table.hand_prepared(deck).seats) == total_chips(table.seats),
        forall|i: int|
            0 <= i < table.seats.len() ==> (#[trigger] table.hand_prepared(
                deck,
            ).seats[i]).hole_cards.len() == 0,
{
    let prepared = table.hand_prepared(deck);
    lemma_total_chips_same(prepared.seats, table.seats);
    lemma_next_active_within_range(prepared.seats, table.dealer_position, prepared.seats.len());
    assert forall|i: int| 0 <= i < prepared.seats.len() implies (
    #[trigger] prepared.seats[i]).chips >= 0 by {
        assert(table.seats[i].chips >= 0);
    }
}

/// Posting the blinds moves chips into the pot and nothing else.
pub proof fn lemma_blinds_posted(table: TableView)
    requires
        table.ready(),
        table.bets_within(),
    ensures
        table.blinds_posted().ready(),
        table.blinds_posted().bets_within(),
        table.blinds_posted().seats.len() == table.seats.len(),
        total_chips(table.blinds_posted().seats) + table.blinds_posted().pot == total_chips(
            table.seats,
        ) + table.pot,
        forall|i: int|
            0 <= i < table.seats.len() ==> (#[trigger] table.blinds_posted().seats[i]).hole_cards
                == table.seats[i].hole_cards,
        forall|i: int|
            0 <= i < table.seats.len() ==> (#[trigger] table.blinds_posted().seats[i]).status
                == table.seats[i].status || table.blinds_posted().seats[i].status
                == PlayerStatus::AllIn,
        table.blinds_posted() == (TableView {
            seats: table.blinds_posted().seats,
            pot: table.blinds_posted().pot,
            current_bet: table.big_blind,
            ..table
        }),
{
    let small = next_active(table.seats, table.dealer_position);
    lemma_next_active_within_range(table.seats, table.dealer_position, table.seats.len());
    let big = next_active(table.seats, small);
    lemma_next_active_within_range(table.seats, small, table.seats.len());
    lemma_bet_taken(table, small, table.small_blind);
    let first = table.bet_taken(small, table.small_blind);
    lemma_bet_taken(first, big, table.big_blind);
}

/// Dealing the hole cards gives each seat at most two cards and takes at most
/// two cards for each seat from the deck.
pub proof fn lemma_hole_cards_dealt(table: TableView)
    ensures
        table.hole_cards_dealt().seats.len() == table.seats.len(),
        table.deck.len() - 2 * table.seats.len() <= table.hole_cards_dealt().deck.len(),
        total_chips(table.hole_cards_dealt().seats) == total_chips(table.seats),
        forall|i: int|
            0 <= i < table.seats.len() ==> {
                let after = #[trigger] table.hole_cards_dealt().seats[i];
                &&& after.chips == table.seats[i].chips
                &&& after.current_bet == table.seats[i].current_bet
                &&& after.status == table.seats[i].status
                &&& after.hole_cards.len() <= table.seats[i].hole_cards.len() + 2
            },
{
    let n = table.seats.len() as int;
    let (once, left) = round_dealt(table.seats, table.deck, n);
    lemma_round_dealt(table.seats, table.deck, n);
    lemma_round_dealt(once, left, n);
    let (twice, rest) = round_dealt(once, left, n);
    assert forall|i: int| 0 <= i < n implies (#[trigger] twice[i]).chips == table.seats[i].chips
        && twice[i].current_bet == table.seats[i].current_bet && twice[i].status
        == table.seats[i].status && twice[i].hole_cards.len() <= table.seats[i].hole_cards.len()
        + 2 by {
        assert(once[i].chips == table.seats[i].chips);
    }
    lemma_total_chips_same(twice, table.seats);
}

/// Starting a hand with a full deck gives a table in order for betting, and
/// no chip is made.
pub proof fn lemma_hand_dealt(table: TableView, deck: Seq<Card>)
    requires
        table.ready(),
        deck.len() == 52,
    ensures
        table.hand_dealt(deck).wf(),
        table.hand_dealt(deck).seats.len() == table.seats.len(),
        table.hand_dealt(deck).chips_in_play() == total_chips(table.seats),
        table.hand_dealt(deck).phase == GamePhase::Showdown ==> table.hand_dealt(deck).pot == 0,
{
    let prepared = table.hand_prepared(deck);
    lemma_hand_prepared(table, deck);
    let posted = prepared.blinds_posted();
    lemma_blinds_posted(prepared);
    let dealt = posted.hole_cards_dealt();
    lemma_hole_cards_dealt(posted);
    let set = dealt.first_turn_set();
    let small = next_active(dealt.seats, dealt.dealer_position);
    lemma_next_active_within_range(dealt.seats, dealt.dealer_position, dealt.seats.len());
    let big = next_active(dealt.seats, small);
    lemma_next_active_within_range(dealt.seats, small, dealt.seats.len());
    lemma_next_active_within_range(dealt.seats, big, dealt.seats.len());
    assert forall|i: int| 0 <= i < set.seats.len() implies (#[trigger] set.seats[i]).chips >= 0
        && 0 <= set.seats[i].current_bet <= set.pot && set.seats[i].hole_cards.len() <= 2 by {
        assert(posted.seats[i].chips >= 0);
        assert(posted.seats[i].hole_cards == prepared.seats[i].hole_cards);
        assert(prepared.seats[i].hole_cards.len() == 0);
        assert(dealt.seats[i].chips == posted.seats[i].chips);
    }
    assert(set.wf());
    assert forall|i: int| 0 <= i < set.seats.len() implies (#[trigger] set.seats[i]).status
        != PlayerStatus::Folded by {
        assert(prepared.seats[i] == table.seats[i].after_reset());
        assert(posted.seats[i].status == prepared.seats[i].status || posted.seats[i].status
            == PlayerStatus::AllIn);
        assert(dealt.seats[i].status == posted.seats[i].status);
    }
    if active_count(set.seats) == 0 {
        lemma_phases_run(set);
        lemma_phases_run_paid(set, 0);
    }
}

/// When a seat has not folded, the showdown pays the pot: once the phases
/// have run on into the showdown, the pot is empty.
pub proof fn lemma_phases_run_paid(table: TableView, seat: int)
    requires
        table.wf(),
        table.phase != GamePhase::Showdown,
        0 <= seat < table.seats.len(),
        table.seats[seat].status != PlayerStatus::Folded,
    ensures
        table.phases_run().phase == GamePhase::Showdown ==> table.phases_run().pot == 0,
    decreases phases_left(table.phase),
{
    lemma_phase_advanced(table);
    lemma_round_cleared(table);
    let cleared = table.round_cleared();
    let next = table.phase_advanced();
    assert(cleared.seats[seat] == table.seats[seat].after_round());
    match table.phase {
        GamePhase::PreFlop => {
            lemma_board_extended(cleared, 3);
        },
        GamePhase::Flop => {
            lemma_board_extended(cleared, 1);
        },
        GamePhase::Turn => {
            lemma_board_extended(cleared, 1);
        },
        GamePhase::River => {
            let at_showdown = TableView { phase: GamePhase::Showdown, ..cleared };
            lemma_winner_among(at_showdown, at_showdown.seats.len() as int);
            assert(at_showdown.seats[seat].status != PlayerStatus::Folded);
        },
        GamePhase::Showdown => {},
    }
    if next.phase != GamePhase::Showdown && active_count(next.seats) == 0 {
        assert(next.seats == cleared.seats);
        lemma_phases_run_paid(next, seat);
    }
}

/// When a seat other than the one that acts has not folded, an action that
/// ends the hand leaves nothing in the pot: the pot is won.
pub proof fn lemma_action_pays(table: TableView, seat: int, action: PlayerAction, other: int)
    requires
        table.wf(),
        0 <= seat < table.seats.len(),
        action matches PlayerAction::Raise(amount) ==> table.current_bet + amount <= u32::MAX,
        0 <= other < table.seats.len(),
        other != seat,
        table.seats[other].status != PlayerStatus::Folded,
    ensures
        table.action_ends_hand(seat, action) ==> table.action_applied(seat, action).pot == 0,
{
    let acted = table.acted_on(seat, action);
    lemma_acted_on(table, seat, action);
    assert(acted.seats[other] == table.seats[other]);
    if acted.phase != GamePhase::Showdown {
        lemma_phases_run_paid(acted, other);
    }
    lemma_first_with_status(acted.seats, PlayerStatus::Active, 0);
    if acted.sole_survivor() {
        lemma_count_status_none(acted.seats, PlayerStatus::Active);
        lemma_first_with_status_found(acted.seats, PlayerStatus::Active, 0);
    }
}

/// A status that some seat from `from` on has is found.
pub proof fn lemma_first_with_status_found(seats: Seq<SeatView>, status: PlayerStatus, from: int)
    requires
        0 <= from,
        exists|i: int| from <= i < seats.len() && (#[trigger] seats[i]).status == status,
    ensures
        first_with_status(seats, status, from) is Some,
    decreases seats.len() - from,
{
    if from < seats.len() && seats[from].status != status {
        let i = choose|i: int| from <= i < seats.len() && (#[trigger] seats[i]).status == status;
        assert(from + 1 <= i);
        lemma_first_with_status_found(seats, status, from + 1);
    }
}

impl GameState {
    /// Gets the table ready for a hand: resets the seats, empties the board
    /// and the pot, moves the dealer button to the next active seat and takes
    /// the deck.
    fn prepare_hand(&mut self, deck: Deck)
        requires
            old(self)@.ready(),
        ensures
            final(self)@ == old(self)@.hand_prepared(deck@),
            final(self).players@.len() == old(self).players@.len(),
    {
        proof {
            assert(self@.seats.len() == self.players@.len());
        }
        let n = self.players.len();
        let mut i: usize = 0;
        while i < n
            invariant
                i <= n,
                n == self.players@.len(),
                self.players@.len() == old(self).players@.len(),
                forall|k: int|
                    0 <= k < i
                        ==> (#[trigger] self.players@[k])@ == old(self).players@[k]@.after_reset(),
                forall|k: int|
                    i <= k < n ==> (#[trigger] self.players@[k]) == old(self).players@[k],
                self@ == (TableView { seats: self@.seats, ..old(self)@ }),
            decreases n - i,
        {
            self.players[i].reset_for_new_hand();
            i += 1;
        }
        assert(self@.seats =~= old(self)@.hand_prepared(deck@).seats);
        self.community_cards.clear();
        self.pot = 0;
        self.current_bet = 0;
        self.phase = GamePhase::PreFlop;
        self.dealer_position = self.get_next_active_player(self.dealer_position);
        let mut acted: Vec<bool> = Vec::new();
        let mut k: usize = 0;
        while k < n
            invariant
                k <= n,
                acted@.len() == k,
                forall|j: int| 0 <= j < k ==> !(#[trigger] acted@[j]),
            decreases n - k,
        {
            acted.push(false);
            k += 1;
        }
        self.players_acted = acted;
        self.deck = deck;
        proof {
            let prepared = old(self)@.hand_prepared(deck@);
            assert(self@.acted =~= prepared.acted);
            assert(self@.community_cards =~= prepared.community_cards);
        }
    }

    /// Posts the blinds: the small blind by the first active seat after the
    /// dealer, the big blind by the first active seat after that.
    pub fn post_blinds(&mut self)
        requires
            old(self)@.ready(),
            old(self)@.bets_within(),
        ensures
            final(self)@ == old(self)@.blinds_posted(),
            final(self).players@.len() == old(self).players@.len(),
    {
        proof {
            assert(self@.seats.len() == self.players@.len());
            lemma_next_active_within_range(
                self@.seats,
                self@.dealer_position,
                self@.seats.len(),
            );
            lemma_bet_taken(
                self@,
                next_active(self@.seats, self@.dealer_position),
                self@.small_blind as int,
            );
        }
        let sb_pos = self.get_next_active_player(self.dealer_position);
        let bb_pos = self.get_next_active_player(sb_pos);
        self.take_bet(sb_pos, self.small_blind);
        self.take_bet(bb_pos, self.big_blind);
        self.current_bet = self.big_blind;
    }

    /// Deals one card from the top of the deck to each active seat, in seat
    /// order.
    fn deal_round(&mut self)
        ensures
            (final(self)@.seats, final(self)@.deck) == round_dealt(
                old(self)@.seats,
                old(self)@.deck,
                old(self)@.seats.len() as int,
            ),
            final(self)@ == (TableView {
                seats: final(self)@.seats,
                deck: final(self)@.deck,
                ..old(self)@
            }),
            final(self).players@.len() == old(self).players@.len(),
    {
        let n = self.players.len();
        let mut i: usize = 0;
        while i < n
            invariant
                i <= n,
                n == self.players@.len(),
                self.players@.len() == old(self).players@.len(),
                (self@.seats, self@.deck) == round_dealt(
                    old(self)@.seats,
                    old(self)@.deck,
                    i as int,
                ),
                self@ == (TableView { seats: self@.seats, deck: self@.deck, ..old(self)@ }),
            decreases n - i,
        {
            let ghost before = self@;
            if self.players[i].status == PlayerStatus::Active {
                if let Some(card) = self.deck.deal() {
                    self.players[i].hole_cards.push(card);
                    assert(self@.seats =~= before.seats.update(
                        i as int,
                        before.seats[i as int].after_card(card),
                    ));
                }
            }
            i += 1;
        }
    }

    /// Deals two cards to every active seat, one card to each seat in turn
    /// and then a second one.
    pub fn deal_hole_cards(&mut self)
        ensures
            final(self)@ == old(self)@.hole_cards_dealt(),
            final(self).players@.len() == old(self).players@.len(),
    {
        proof {
            lemma_round_dealt(self@.seats, self@.deck, self@.seats.len() as int);
        }
        self.deal_round();
        self.deal_round();
    }

    /// Starts a hand with the given deck: resets the seats, moves the dealer
    /// button, posts the blinds, deals the hole cards and sets the turn. If no
    /// seat can act then, the phases run on to the showdown; the result says
    /// whether they did.
    pub fn deal_hand(&mut self, deck: Deck) -> (over: bool)
        requires
            old(self)@.ready(),
            is_shuffled(deck@),
        ensures
            final(self)@ == old(self)@.hand_dealt(deck@),
            over == (final(self)@.phase == GamePhase::Showdown),
            final(self).wf(),
            final(self).players@.len() == old(self).players@.len(),
            cards_distinct(final(self)@),
    {
        proof {
            lemma_shuffled_len(deck@);
            lemma_hand_dealt_distinct(self@, deck@);
            lemma_hand_dealt(self@, deck@);
            lemma_hand_prepared(self@, deck@);
            lemma_blinds_posted(self@.hand_prepared(deck@));
            lemma_hole_cards_dealt(self@.hand_prepared(deck@).blinds_posted());
        }
        self.prepare_hand(deck);
        self.post_blinds();
        self.deal_hole_cards();
        proof {
            assert(self@.seats.len() == self.players@.len());
            lemma_next_active_within_range(
                self@.seats,
                self@.dealer_position,
                self@.seats.len(),
            );
        }
        let sb_pos = self.get_next_active_player(self.dealer_position);
        let bb_pos = self.get_next_active_player(sb_pos);
        self.current_player = self.get_next_active_player(bb_pos);
        if self.count_with_status(PlayerStatus::Active) == 0 {
            proof {
                lemma_phases_run_ends(self@);
            }
            self.advance_phase();
            true
        } else {
            false
        }
    }

    /// A full deck in a random order.
    fn shuffled_deck() -> (deck: Deck)
        ensures
            is_shuffled(deck@),
            deck@.len() == 52,
    {
        let mut deck = Deck::new();
        deck.shuffle();
        deck
    }

    /// Starts a new hand with a freshly shuffled deck. If no seat can act once
    /// the blinds are posted, the hand goes straight to the showdown and a
    /// second hand is started; the table rests at the showdown if that one
    /// goes the same way.
    pub fn start_new_hand(&mut self)
        requires
            old(self)@.ready(),
        ensures
            exists|first: Seq<Card>, second: Seq<Card>|
                is_shuffled(first) && is_shuffled(second)
                    && final(self)@ == #[trigger] old(self)@.hands_dealt(first, second),
            final(self).wf(),
            final(self).players@.len() == old(self).players@.len(),
            same_players(final(self)@.seats, old(self)@.seats),
            final(self)@.turn_is_live(),
            final(self)@.actives_have_chips(),
            final(self)@.chips_in_play() == total_chips(old(self)@.seats),
            cards_distinct(final(self)@),
    {
        let deck = Self::shuffled_deck();
        let ghost first = deck@;
        proof {
            lemma_hand_dealt(self@, first);
        }
        if self.deal_hand(deck) {
            let deck = Self::shuffled_deck();
            let ghost second = deck@;
            proof {
                lemma_hand_dealt(self@, second);
            }
            self.deal_hand(deck);
            assert(self@ == old(self)@.hands_dealt(first, second));
            proof {
                lemma_hands_dealt_ids(old(self)@, first, second);
                lemma_hands_dealt_live(old(self)@, first, second);
            }
        } else {
            assert(self@ == old(self)@.hands_dealt(first, first));
            proof {
                lemma_hands_dealt_ids(old(self)@, first, first);
                lemma_hands_dealt_live(old(self)@, first, first);
            }
        }
    }

    /// Applies the action of the player `player_id`, or refuses it and leaves
    /// the table as it is. When the action ends the hand, the next hand is
    /// started with a freshly shuffled deck.
    pub fn execute_action(&mut self, player_id: &PlayerId, action: PlayerAction) -> (result:
        Result<(), String>)
        requires
            old(self).wf(),
        ensures
            result matches Err(reason) ==> old(self)@.rejection(player_id@, action) == Some(
                reason@,
            ),
            result is Ok ==> old(self)@.rejection(player_id@, action) is None,
            exists|first: Seq<Card>, second: Seq<Card>|
                is_shuffled(first) && is_shuffled(second)
                    && final(self)@
                    == #[trigger] old(self)@.action_outcome(player_id@, action, first, second),
            result is Err ==> final(self)@ == old(self)@,
            result is Ok ==> final(self)@.turn_is_live(),
            old(self)@.actives_have_chips() ==> final(self)@.actives_have_chips(),
            cards_distinct(old(self)@) ==> cards_distinct(final(self)@),
            final(self).wf(),
            final(self).players@.len() == old(self).players@.len(),
            same_players(final(self)@.seats, old(self)@.seats),
            final(self)@.chips_in_play() <= old(self)@.chips_in_play(),
            final(self)@.chips_in_play() == old(self)@.chips_in_play()
                || final(self)@.chips_in_play() == total_chips(
                old(self)@.action_applied(old(self)@.current_player, action).seats,
            ),
            old(self)@.another_in_hand(old(self)@.current_player) ==> final(self)@.chips_in_play()
                == old(self)@.chips_in_play(),
    {
        let ghost fresh = fresh_cards();
        proof {
            if self@.rejection(player_id@, action) is None && self@.another_in_hand(
                self@.current_player,
            ) {
                let seat = self@.current_player;
                let other = choose|other: int|
                    0 <= other < self@.seats.len() && other != seat && (
                    #[trigger] self@.seats[other]).status != PlayerStatus::Folded;
                lemma_action_pays(self@, seat, action, other);
            }
        }
        proof {
            lemma_action_outcome(self@, player_id@, action, fresh, fresh);
        }
        match self.apply_action(player_id, action) {
            Err(reason) => {
                assert(self@ == old(self)@.action_outcome(player_id@, action, fresh, fresh));
                Err(reason)
            },
            Ok(over) => {
                if over {
                    let ghost applied = self@;
                    self.start_new_hand();
                    proof {
                        let (first, second) = choose|first: Seq<Card>, second: Seq<Card>|
                            is_shuffled(first) && is_shuffled(second) && self@
                                == #[trigger] applied.hands_dealt(first, second);
                        assert(self@ == old(self)@.action_outcome(
                            player_id@,
                            action,
                            first,
                            second,
                        ));
                        lemma_action_outcome(old(self)@, player_id@, action, first, second);
                        lemma_action_outcome_live(old(self)@, player_id@, action, first, second);
                        if cards_distinct(old(self)@) {
                            lemma_action_outcome_distinct(
                                old(self)@,
                                player_id@,
                                action,
                                first,
                                second,
                            );
                        }
                    }
                } else {
                    assert(self@ == old(self)@.action_outcome(player_id@, action, fresh, fresh));
                    proof {
                        lemma_action_outcome_live(old(self)@, player_id@, action, fresh, fresh);
                        if cards_distinct(old(self)@) {
                            lemma_action_outcome_distinct(
                                old(self)@,
                                player_id@,
                                action,
                                fresh,
                                fresh,
                            );
                        }
                    }
                }
                Ok(())
            },
        }
    }
}

/// With no seat that can act, the phases run on to the showdown.
pub proof fn lemma_phases_run_ends(table: TableView)
    requires
        table.wf(),
        active_count(table.seats) == 0,
    ensures
        table.phases_run().phase == GamePhase::Showdown,
    decreases phases_left(table.phase),
{
    lemma_phase_advanced(table);
    let next = table.phase_advanced();
    if table.phase != GamePhase::Showdown && next.phase != GamePhase::Showdown {
        lemma_round_cleared(table);
        let cleared = table.round_cleared();
        lemma_count_status_same(cleared.seats, table.seats, PlayerStatus::Active);
        match table.phase {
            GamePhase::PreFlop => {
                lemma_board_extended(cleared, 3);
            },
            GamePhase::Flop => {
                lemma_board_extended(cleared, 1);
            },
            GamePhase::Turn => {
                lemma_board_extended(cleared, 1);
            },
            _ => {},
        }
        assert(next.seats == cleared.seats);
        lemma_phases_run_ends(next);
    }
}

// ---------------------------------------------------------------------------
// What holds of every table
// ---------------------------------------------------------------------------
/// The seat that is `steps` seats after `start`, going round a table of `n`
/// seats, for up to `n` steps.
pub open spec fn seat_at(start: int, steps: int, n: int) -> int {
    if start + steps < n {
        start + steps
    } else {
        start + steps - n
    }
}

proof fn lemma_next_active_within(seats: Seq<SeatView>, start: int, done: int) -> (steps: int)
    requires
        0 <= start < seats.len(),
        0 <= done <= seats.len(),
    ensures
        done <= steps <= seats.len(),
        done < seats.len() ==> done < steps,
        next_active_within(
            seats,
            seat_at(start, done, seats.len() as int),
            (seats.len() - done) as nat,
        ) == seat_at(start, steps, seats.len() as int),
        forall|k: int|
            done < k < steps ==> seats[seat_at(start, k, seats.len() as int)].status
                != PlayerStatus::Active,
        steps < seats.len() ==> seats[seat_at(start, steps, seats.len() as int)].status
            == PlayerStatus::Active,
    decreases seats.len() - done,
{
    let n = seats.len() as int;
    if done == n {
        done
    } else {
        let seat = seat_at(start, done, n);
        let next = seat_after(seat, n);
        assert(next == seat_at(start, done + 1, n));
        if seats[next].status == PlayerStatus::Active {
            done + 1
        } else {
            let steps = lemma_next_active_within(seats, start, done + 1);
            assert forall|k: int| done < k < steps implies seats[seat_at(start, k, n)].status
                != PlayerStatus::Active by {}
            steps
        }
    }
}

/// The turn never lands on a seat that cannot act while another can: the
/// seat after `start` is the first active seat met going round the table,
/// every seat passed over is not active, and `start` itself is what is left
/// if no seat is active. The result is the number of seats gone.
pub proof fn lemma_next_active_skips(seats: Seq<SeatView>, start: int) -> (steps: int)
    requires
        0 <= start < seats.len(),
    ensures
        1 <= steps <= seats.len(),
        next_active(seats, start) == seat_at(start, steps, seats.len() as int),
        0 <= next_active(seats, start) < seats.len(),
        forall|k: int|
            1 <= k < steps ==> seats[seat_at(start, k, seats.len() as int)].status
                != PlayerStatus::Active,
        active_count(seats) > 0 ==> seats[next_active(seats, start)].status
            == PlayerStatus::Active,
        active_count(seats) == 0 ==> next_active(seats, start) == start,
{
    let n = seats.len() as int;
    let steps = lemma_next_active_within(seats, start, 0);
    lemma_count_status_none(seats, PlayerStatus::Active);
    let next = next_active(seats, start);
    if seats[next].status != PlayerStatus::Active {
        assert(steps == n);
        assert forall|i: int| 0 <= i < n implies (#[trigger] seats[i]).status
            != PlayerStatus::Active by {
            let k = if i > start {
                i - start
            } else {
                i - start + n
            };
            assert(seat_at(start, k, n) == i);
            if k < n {
                assert(seats[seat_at(start, k, n)].status != PlayerStatus::Active);
            }
        }
    }
    steps
}

/// What the table offers the seat on turn, it takes: none of the legal
/// actions is refused to the player of that seat, as long as the table's bet
/// can still go up by the least raise.
pub proof fn lemma_legal_actions_taken(table: TableView, k: int)
    requires
        table.wf(),
        table.min_raise() <= table.raise_room(),
        seat_of(table.seats, table.seats[table.current_player].id, 0) == Some(
            table.current_player,
        ),
        0 <= k < table.legal_actions().len(),
    ensures
        table.rejection(table.seats[table.current_player].id, table.legal_actions()[k]) is None,
{
    let seat = table.seats[table.current_player];
    let owed = table.owed(table.current_player);
    let offered = table.legal_actions();
    let first = seq![PlayerAction::Fold];
    let second = if owed == 0 {
        seq![PlayerAction::Check]
    } else if seat.chips >= owed {
        seq![PlayerAction::Call]
    } else {
        Seq::empty()
    };
    let third = if seat.chips > owed + table.min_raise() {
        seq![PlayerAction::Raise(table.min_raise() as u32)]
    } else {
        Seq::empty()
    };
    let fourth = if seat.chips > 0 {
        seq![PlayerAction::AllIn]
    } else {
        Seq::empty()
    };
    assert(offered == first + second + third + fourth);
    if k < 1 {
        assert(offered[k] == first[k]);
    } else if k < 1 + second.len() {
        assert(offered[k] == second[k - 1]);
    } else if k < 1 + second.len() + third.len() {
        assert(offered[k] == third[k - 1 - second.len()]);
    } else {
        assert(offered[k] == fourth[k - 1 - second.len() - third.len()]);
    }
}

/// When every seat that can act has acted and has matched the table's bet,
/// the betting round is over.
pub proof fn lemma_round_complete_when_matched(table: TableView)
    requires
        forall|i: int|
            0 <= i < table.seats.len() && (#[trigger] table.seats[i]).status
                == PlayerStatus::Active ==> table.acted[i] && table.seats[i].current_bet
                == table.current_bet,
    ensures
        table.round_complete(),
{
}

/// While two or more seats can act, one of them that still has chips and has
/// not matched the table's bet keeps the betting round open.
pub proof fn lemma_round_open_when_unmatched(table: TableView, seat: int)
    requires
        0 <= seat < table.seats.len(),
        active_count(table.seats) >= 2,
        table.seats[seat].status == PlayerStatus::Active,
        table.seats[seat].chips != 0,
        table.seats[seat].current_bet != table.current_bet,
    ensures
        !table.round_complete(),
{
}

/// The seat that wins the showdown has not folded, no seat left in the hand
/// has a better hand, and every later seat left in the hand has a worse one.
pub proof fn lemma_showdown_winner(table: TableView, k: int)
    requires
        0 <= k <= table.seats.len(),
    ensures
        table.winner_among(k) matches Some(w) ==> {
            &&& 0 <= w < k
            &&& table.seats[w].status != PlayerStatus::Folded
            &&& forall|i: int|
                0 <= i < k && (#[trigger] table.seats[i]).status != PlayerStatus::Folded
                    ==> value_order(
                    best_value(table.seat_cards(i)),
                    best_value(table.seat_cards(w)),
                ) <= 0
            &&& forall|i: int|
                w < i < k && (#[trigger] table.seats[i]).status != PlayerStatus::Folded
                    ==> value_order(
                    best_value(table.seat_cards(i)),
                    best_value(table.seat_cards(w)),
                ) < 0
        },
    decreases k,
{
    if k > 0 {
        lemma_showdown_winner(table, k - 1);
        lemma_winner_among(table, k - 1);
        let last = best_value(table.seat_cards(k - 1));
        lemma_order_total(last, last);
        if table.seats[k - 1].status != PlayerStatus::Folded {
            match table.winner_among(k - 1) {
                None => {},
                Some(before) => {
                    let held = best_value(table.seat_cards(before));
                    lemma_order_total(last, held);
                    lemma_order_total(held, last);
                    if value_order(last, held) >= 0 {
                        assert forall|i: int|
                            0 <= i < k && (#[trigger] table.seats[i]).status
                                != PlayerStatus::Folded implies value_order(
                            best_value(table.seat_cards(i)),
                            last,
                        ) <= 0 by {
                            if i < k - 1 {
                                lemma_order_transitive(
                                    best_value(table.seat_cards(i)),
                                    held,
                                    last,
                                );
                            }
                        }
                    }
                },
            }
        }
    }
}

/// The seats keep their players.
pub open spec fn same_players(a: Seq<SeatView>, b: Seq<SeatView>) -> bool {
    &&& a.len() == b.len()
    &&& forall|i: int|
        0 <= i < a.len() ==> (#[trigger] a[i]).id == b[i].id && a[i].name == b[i].name
}

/// Running the phases on leaves every player on their seat.
pub proof fn lemma_phases_run_ids(table: TableView)
    requires
        table.wf(),
    ensures
        same_players(table.phases_run().seats, table.seats),
    decreases phases_left(table.phase),
{
    lemma_phase_advanced(table);
    lemma_round_cleared(table);
    let cleared = table.round_cleared();
    let next = table.phase_advanced();
    match table.phase {
        GamePhase::PreFlop => {
            lemma_board_extended(cleared, 3);
        },
        GamePhase::Flop => {
            lemma_board_extended(cleared, 1);
        },
        GamePhase::Turn => {
            lemma_board_extended(cleared, 1);
        },
        GamePhase::River => {
            let at_showdown = TableView { phase: GamePhase::Showdown, ..cleared };
            lemma_winner_among(at_showdown, at_showdown.seats.len() as int);
        },
        GamePhase::Showdown => {},
    }
    assert(same_players(next.seats, table.seats));
    if table.phase != GamePhase::Showdown && next.phase != GamePhase::Showdown && active_count(
        next.seats,
    ) == 0 {
        lemma_phases_run_ids(next);
    }
}

/// Starting a hand leaves every player on their seat.
pub proof fn lemma_hand_dealt_ids(table: TableView, deck: Seq<Card>)
    requires
        table.ready(),
        deck.len() == 52,
    ensures
        same_players(table.hand_dealt(deck).seats, table.seats),
        table.hand_dealt(deck).wf(),
{
    let prepared = table.hand_prepared(deck);
    lemma_hand_prepared(table, deck);
    let posted = prepared.blinds_posted();
    lemma_blinds_posted(prepared);
    let small = next_active(prepared.seats, prepared.dealer_position);
    lemma_next_active_within_range(prepared.seats, prepared.dealer_position, prepared.seats.len());
    let big = next_active(prepared.seats, small);
    lemma_next_active_within_range(prepared.seats, small, prepared.seats.len());
    assert(same_players(posted.seats, table.seats));
    let dealt = posted.hole_cards_dealt();
    let n = posted.seats.len() as int;
    lemma_round_dealt(posted.seats, posted.deck, n);
    let (once, left) = round_dealt(posted.seats, posted.deck, n);
    lemma_round_dealt(once, left, n);
    assert(same_players(dealt.seats, table.seats)) by {
        assert forall|i: int| 0 <= i < n implies (#[trigger] dealt.seats[i]).id
            == table.seats[i].id && dealt.seats[i].name == table.seats[i].name by {
            assert(once[i].id == posted.seats[i].id);
        }
    }
    lemma_hand_dealt(table, deck);
    let set = dealt.first_turn_set();
    if active_count(set.seats) == 0 {
        lemma_hand_dealt_set(table, deck);
        lemma_phases_run_ids(set);
    }
}

/// Once the blinds are posted, the cards dealt and the turn set, the table
/// is in order for betting.
pub proof fn lemma_hand_dealt_set(table: TableView, deck: Seq<Card>)
    requires
        table.ready(),
        deck.len() == 52,
    ensures
        table.hand_prepared(deck).blinds_posted().hole_cards_dealt().first_turn_set().wf(),
{
    let prepared = table.hand_prepared(deck);
    lemma_hand_prepared(table, deck);
    let posted = prepared.blinds_posted();
    lemma_blinds_posted(prepared);
    let dealt = posted.hole_cards_dealt();
    lemma_hole_cards_dealt(posted);
    let set = dealt.first_turn_set();
    let small = next_active(dealt.seats, dealt.dealer_position);
    lemma_next_active_within_range(dealt.seats, dealt.dealer_position, dealt.seats.len());
    let big = next_active(dealt.seats, small);
    lemma_next_active_within_range(dealt.seats, small, dealt.seats.len());
    lemma_next_active_within_range(dealt.seats, big, dealt.seats.len());
    assert forall|i: int| 0 <= i < set.seats.len() implies (#[trigger] set.seats[i]).chips >= 0
        && 0 <= set.seats[i].current_bet <= set.pot && set.seats[i].hole_cards.len() <= 2 by {
        assert(posted.seats[i].chips >= 0);
        assert(posted.seats[i].hole_cards == prepared.seats[i].hole_cards);
        assert(prepared.seats[i].hole_cards.len() == 0);
        assert(dealt.seats[i].chips == posted.seats[i].chips);
    }
}

/// The cards of a full deck in some order are fifty-two.
pub proof fn lemma_shuffled_len(deck: Seq<Card>)
    requires
        is_shuffled(deck),
    ensures
        deck.len() == 52,
{
    vstd::seq_lib::to_multiset_len(deck);
    vstd::seq_lib::to_multiset_len(fresh_cards());
}

/// Starting one or two hands leaves every player on their seat and the
/// table in order for betting.
pub proof fn lemma_hands_dealt_ids(table: TableView, first: Seq<Card>, second: Seq<Card>)
    requires
        table.ready(),
        is_shuffled(first),
        is_shuffled(second),
    ensures
        same_players(table.hands_dealt(first, second).seats, table.seats),
        table.hands_dealt(first, second).wf(),
{
    lemma_shuffled_len(first);
    lemma_shuffled_len(second);
    lemma_hand_dealt_ids(table, first);
    let once = table.hand_dealt(first);
    if once.phase == GamePhase::Showdown {
        lemma_hand_dealt_ids(once, second);
    }
}

/// An action with all that follows from it within the hand leaves every
/// player on their seat.
pub proof fn lemma_action_applied_ids(table: TableView, seat: int, action: PlayerAction)
    requires
        table.wf(),
        0 <= seat < table.seats.len(),
        action matches PlayerAction::Raise(amount) ==> table.current_bet + amount <= u32::MAX,
    ensures
        same_players(table.action_applied(seat, action).seats, table.seats),
        same_players(table.acted_on(seat, action).seats, table.seats),
{
    let acted = table.acted_on(seat, action);
    lemma_acted_on(table, seat, action);
    assert(same_players(acted.seats, table.seats));
    lemma_phases_run_ids(acted);
    lemma_first_with_status(acted.seats, PlayerStatus::Active, 0);
    assert(same_players(acted.won_early().seats, acted.seats));
}

/// Whatever comes of an action, refused or applied, with or without a new
/// hand, every player stays on their seat and the table stays in order.
pub proof fn lemma_action_outcome(
    table: TableView,
    id: Seq<char>,
    action: PlayerAction,
    first: Seq<Card>,
    second: Seq<Card>,
)
    requires
        table.wf(),
        is_shuffled(first),
        is_shuffled(second),
    ensures
        same_players(table.action_outcome(id, action, first, second).seats, table.seats),
        table.action_outcome(id, action, first, second).wf(),
{
    if table.rejection(id, action) is None {
        let seat = table.current_player;
        lemma_action_applied_ids(table, seat, action);
        let acted = table.acted_on(seat, action);
        lemma_acted_on(table, seat, action);
        lemma_phases_run(acted);
        lemma_won_early(acted);
        lemma_next_active_within_range(acted.seats, acted.current_player, acted.seats.len());
        let applied = table.action_applied(seat, action);
        if table.action_ends_hand(seat, action) {
            lemma_hands_dealt_ids(applied, first, second);
        }
    }
}

/// After the phases have run on, the turn is on a seat that can act, unless
/// the table is at the showdown; and seats that can act still have chips if
/// they had before.
pub proof fn lemma_phases_run_live(table: TableView)
    requires
        table.wf(),
    ensures
        table.phases_run().turn_is_live(),
        table.actives_have_chips() ==> table.phases_run().actives_have_chips(),
    decreases phases_left(table.phase),
{
    lemma_phase_advanced(table);
    lemma_round_cleared(table);
    let cleared = table.round_cleared();
    let next = table.phase_advanced();
    match table.phase {
        GamePhase::PreFlop => {
            lemma_board_extended(cleared, 3);
        },
        GamePhase::Flop => {
            lemma_board_extended(cleared, 1);
        },
        GamePhase::Turn => {
            lemma_board_extended(cleared, 1);
        },
        GamePhase::River => {
            let at_showdown = TableView { phase: GamePhase::Showdown, ..cleared };
            lemma_winner_among(at_showdown, at_showdown.seats.len() as int);
        },
        GamePhase::Showdown => {},
    }
    if table.actives_have_chips() {
        assert forall|i: int|
            0 <= i < next.seats.len() && (#[trigger] next.seats[i]).status
                == PlayerStatus::Active implies next.seats[i].chips > 0 by {
            assert(cleared.seats[i] == table.seats[i].after_round());
            assert(table.seats[i].status == PlayerStatus::Active ==> table.seats[i].chips > 0);
        }
    }
    if next.phase != GamePhase::Showdown {
        if active_count(next.seats) == 0 {
            lemma_phases_run_live(next);
        } else {
            assert(next.seats == cleared.seats);
            lemma_next_active_skips(next.seats, next.dealer_position);
        }
    }
}

/// After a hand was started, the turn is on a seat that can act, unless the
/// hand went straight to the showdown; and every seat that can act has chips.
pub proof fn lemma_hand_dealt_live(table: TableView, deck: Seq<Card>)
    requires
        table.ready(),
        deck.len() == 52,
    ensures
        table.hand_dealt(deck).turn_is_live(),
        table.hand_dealt(deck).actives_have_chips(),
{
    let prepared = table.hand_prepared(deck);
    lemma_hand_prepared(table, deck);
    let posted = prepared.blinds_posted();
    lemma_blinds_posted(prepared);
    let small = next_active(prepared.seats, prepared.dealer_position);
    lemma_next_active_within_range(prepared.seats, prepared.dealer_position, prepared.seats.len());
    let big = next_active(prepared.seats, small);
    lemma_next_active_within_range(prepared.seats, small, prepared.seats.len());
    assert forall|i: int|
        0 <= i < posted.seats.len() && (#[trigger] posted.seats[i]).status
            == PlayerStatus::Active implies posted.seats[i].chips > 0 by {
        assert(prepared.seats[i] == table.seats[i].after_reset());
    }
    let dealt = posted.hole_cards_dealt();
    lemma_hole_cards_dealt(posted);
    let set = dealt.first_turn_set();
    assert forall|i: int|
        0 <= i < set.seats.len() && (#[trigger] set.seats[i]).status
            == PlayerStatus::Active implies set.seats[i].chips > 0 by {
        assert(dealt.seats[i].status == posted.seats[i].status);
        assert(posted.seats[i].status == PlayerStatus::Active ==> posted.seats[i].chips > 0);
    }
    lemma_hand_dealt_set(table, deck);
    let first = next_active(dealt.seats, dealt.dealer_position);
    lemma_next_active_within_range(dealt.seats, dealt.dealer_position, dealt.seats.len());
    let second = next_active(dealt.seats, first);
    lemma_next_active_within_range(dealt.seats, first, dealt.seats.len());
    if active_count(set.seats) == 0 {
        lemma_phases_run_live(set);
    } else {
        lemma_next_active_skips(dealt.seats, second);
    }
}

/// After an action that does not end the hand, the turn is on a seat that
/// can act, unless the table rests at the showdown; and seats that can act
/// still have chips if they had before.
pub proof fn lemma_action_applied_live(table: TableView, seat: int, action: PlayerAction)
    requires
        table.wf(),
        0 <= seat < table.seats.len(),
        action matches PlayerAction::Raise(amount) ==> table.current_bet + amount <= u32::MAX,
    ensures
        !table.action_ends_hand(seat, action) ==> table.action_applied(
            seat,
            action,
        ).turn_is_live(),
        table.actives_have_chips() ==> table.action_applied(seat, action).actives_have_chips(),
{
    let acted = table.acted_on(seat, action);
    lemma_acted_on(table, seat, action);
    lemma_phases_run_live(acted);
    lemma_first_with_status(acted.seats, PlayerStatus::Active, 0);
    if table.actives_have_chips() {
        assert forall|i: int|
            0 <= i < acted.seats.len() && (#[trigger] acted.seats[i]).status
                == PlayerStatus::Active implies acted.seats[i].chips > 0 by {
            assert(table.seats[i].status == PlayerStatus::Active ==> table.seats[i].chips > 0);
            if i != seat {
                assert(acted.seats[i] == table.seats[i]);
            }
        }
        let won = acted.won_early();
        assert forall|i: int|
            0 <= i < won.seats.len() && (#[trigger] won.seats[i]).status
                == PlayerStatus::Active implies won.seats[i].chips > 0 by {
            assert(acted.seats[i].status == PlayerStatus::Active ==> acted.seats[i].chips > 0);
        }
    }
}

/// Whatever comes of an action that the table takes, the turn is on a seat that
/// can act afterwards, unless the table rests at the showdown; and seats that
/// can act have chips if they had before.
pub proof fn lemma_action_outcome_live(
    table: TableView,
    id: Seq<char>,
    action: PlayerAction,
    first: Seq<Card>,
    second: Seq<Card>,
)
    requires
        table.wf(),
        is_shuffled(first),
        is_shuffled(second),
        table.rejection(id, action) is None,
    ensures
        table.action_outcome(id, action, first, second).turn_is_live(),
        table.actives_have_chips() ==> table.action_outcome(
            id,
            action,
            first,
            second,
        ).actives_have_chips(),
{
    let seat = table.current_player;
    lemma_action_applied_live(table, seat, action);
    let applied = table.action_applied(seat, action);
    if table.action_ends_hand(seat, action) {
        let acted = table.acted_on(seat, action);
        lemma_acted_on(table, seat, action);
        lemma_phases_run(acted);
        lemma_won_early(acted);
        lemma_hands_dealt_live(applied, first, second);
    }
}

/// After one or two hands were started, the turn is on a seat that can act,
/// unless the table rests at the showdown; and every seat that can act has
/// chips.
pub proof fn lemma_hands_dealt_live(table: TableView, first: Seq<Card>, second: Seq<Card>)
    requires
        table.ready(),
        is_shuffled(first),
        is_shuffled(second),
    ensures
        table.hands_dealt(first, second).turn_is_live(),
        table.hands_dealt(first, second).actives_have_chips(),
{
    lemma_shuffled_len(first);
    lemma_shuffled_len(second);
    lemma_hand_dealt_live(table, first);
    lemma_hand_dealt(table, first);
    let once = table.hand_dealt(first);
    if once.phase == GamePhase::Showdown {
        lemma_hand_dealt_live(once, second);
    }
}

impl TableView {
    /// The table with the seat put out of the game.
    pub open spec fn retired(self, seat: int) -> TableView {
        self.with_seat(seat, SeatView { status: PlayerStatus::Eliminated, ..self.seats[seat] })
    }
}

/// Putting a seat out of the game changes nothing else: the table stays as
/// much in order as it was, the players keep their seats, and the turn stays
/// on a seat that can act if it was on another one.
pub proof fn lemma_retired(table: TableView, seat: int)
    requires
        0 <= seat < table.seats.len(),
    ensures
        same_players(table.retired(seat).seats, table.seats),
        table.retired(seat).chips_in_play() == table.chips_in_play(),
        table.ready() ==> table.retired(seat).ready(),
        table.wf() ==> table.retired(seat).wf(),
        table.wf() && table.turn_is_live() && (table.phase == GamePhase::Showdown
            || table.current_player != seat) ==> table.retired(seat).turn_is_live(),
        forall|i: int|
            0 <= i < table.seats.len() && i != seat ==> (#[trigger] table.retired(seat).seats[i])
                == table.seats[i],
        table.retired(seat).seats[seat].status == PlayerStatus::Eliminated,
{
    let after = table.retired(seat);
    lemma_total_chips_same(after.seats, table.seats);
    if table.ready() {
        assert forall|i: int| 0 <= i < after.seats.len() implies (#[trigger] after.seats[i]).chips
            >= 0 by {
            assert(table.seats[i].chips >= 0);
        }
    }
    if table.wf() {
        assert forall|i: int| 0 <= i < after.seats.len() implies 0 <= (
        #[trigger] after.seats[i]).current_bet <= after.pot && after.seats[i].hole_cards.len()
            <= 2 by {
            assert(0 <= table.seats[i].current_bet <= table.pot);
            assert(table.seats[i].hole_cards.len() <= 2);
        }
    }
}

/// Running the phases on leaves every seat with its status.
pub proof fn lemma_phases_run_statuses(table: TableView)
    requires
        table.wf(),
    ensures
        forall|i: int|
            0 <= i < table.seats.len() ==> (#[trigger] table.phases_run().seats[i]).status
                == table.seats[i].status,
    decreases phases_left(table.phase),
{
    lemma_phase_advanced(table);
    lemma_round_cleared(table);
    let cleared = table.round_cleared();
    let next = table.phase_advanced();
    match table.phase {
        GamePhase::PreFlop => {
            lemma_board_extended(cleared, 3);
        },
        GamePhase::Flop => {
            lemma_board_extended(cleared, 1);
        },
        GamePhase::Turn => {
            lemma_board_extended(cleared, 1);
        },
        GamePhase::River => {
            let at_showdown = TableView { phase: GamePhase::Showdown, ..cleared };
            lemma_winner_among(at_showdown, at_showdown.seats.len() as int);
        },
        GamePhase::Showdown => {},
    }
    assert forall|i: int| 0 <= i < table.seats.len() implies (#[trigger] next.seats[i]).status
        == table.seats[i].status by {
        assert(cleared.seats[i] == table.seats[i].after_round());
    }
    if table.phase != GamePhase::Showdown && next.phase != GamePhase::Showdown && active_count(
        next.seats,
    ) == 0 {
        lemma_phases_run_statuses(next);
        assert forall|i: int| 0 <= i < table.seats.len() implies (
        #[trigger] table.phases_run().seats[i]).status == table.seats[i].status by {
            assert(next.phases_run().seats[i].status == next.seats[i].status);
        }
    }
}

/// A fold leaves the seat folded, whatever follows from it within the hand,
/// and the other seats with their statuses.
pub proof fn lemma_fold_applied(table: TableView, seat: int)
    requires
        table.wf(),
        0 <= seat < table.seats.len(),
    ensures
        table.action_applied(seat, PlayerAction::Fold).seats[seat].status == PlayerStatus::Folded,
        forall|i: int|
            0 <= i < table.seats.len() && i != seat ==> (#[trigger] table.action_applied(
                seat,
                PlayerAction::Fold,
            ).seats[i]).status == table.seats[i].status,
{
    let acted = table.acted_on(seat, PlayerAction::Fold);
    lemma_acted_on(table, seat, PlayerAction::Fold);
    lemma_phases_run_statuses(acted);
    lemma_first_with_status(acted.seats, PlayerStatus::Active, 0);
    let applied = table.action_applied(seat, PlayerAction::Fold);
    assert forall|i: int| 0 <= i < table.seats.len() implies (#[trigger] applied.seats[i]).status
        == acted.seats[i].status by {
        assert(acted.phases_run().seats[i].status == acted.seats[i].status);
    }
}

} // verus!
