//! The rooms in which games are played, and the manager that owns them.
//!
//! A room is a table with the names and kinds of its players, the state of the
//! game, a log, and the count of turns that each player has let time out. The
//! manager owns all rooms: whatever is done to a room is done through it, one
//! request at a time. Who may act for a player is decided before a request
//! gets here; the manager checks only that a token is for the game it is used
//! in.

use vstd::prelude::*;
use std::time::SystemTime;
use crate::auth::{
    claims_read, claims_view, create_token, token_at, verify_token, Claims, ClaimsView,
    TokenFault, TokenFields,
};
use crate::card::Card;
use crate::deck::fresh_cards;
use crate::game::{
    is_shuffled, lemma_acted_on, lemma_action_applied_live, lemma_fold_applied,
    lemma_hands_dealt_ids, lemma_hands_dealt_live, lemma_next_active_within_range,
    lemma_phases_run, lemma_retired, lemma_total_chips_equal, lemma_won_early,
    same_players, seat_of, status_name, status_str, texts, GamePhase, GameState, Player,
    PlayerAction as EngineAction, PlayerStatus, SeatView, TableView, MAX_SEATS,
};
use crate::models::{
    action_name, action_to_string, amount_of, card_texts, cards_to_strings, engine_action,
    phase_name, phase_to_string, text_of, texts_of, CreateGameRequest,
    CreateGameResponse, GameId, GameListResponse, GameStateResponse, GameStateView, GameSummary,
    GameSummaryView, JoinGameRequest, JoinGameResponse, PlayerAction, PlayerId, PlayerInfo,
    PlayerInfoView, PlayerType, SubmitActionRequest, SubmitActionResponse,
};
use crate::text::{decimal, decimal_string, joined};

verus! {

/// The seconds a player has for their turn.
pub const TURN_TIMEOUT_SECS: u64 = 30;

/// The timeouts in a row after which a player is put out of the game.
pub const MAX_STRIKES: u32 = 3;

/// How many entries of the log a player is shown: the latest ones.
pub const LOG_WINDOW: usize = 50;

/// The chips of the first player who takes a seat.
pub const DEFAULT_STACK: u32 = 1000;

// ---------------------------------------------------------------------------
// Time and identities
// ---------------------------------------------------------------------------
/// `std::time::SystemTime`, a point in time: carried along, never looked into.
#[verifier::external_type_specification]
#[verifier::external_body]
pub struct ExSystemTime(SystemTime);

/// `std::time::SystemTime::now`: the time of the system's clock. Nothing is
/// claimed of it.
#[verifier::external_body]
fn time_now() -> (now: SystemTime) {
    SystemTime::now()
}

/// `std::time::SystemTime::elapsed`: the time gone by since `since`, as whole
/// seconds and the nanoseconds beyond them, or nothing if the clock has
/// gone back behind `since`. The nanoseconds are less than a second.
#[verifier::external_body]
fn time_elapsed(since: &SystemTime) -> (elapsed: Option<(u64, u32)>)
    ensures
        elapsed matches Some(e) ==> e.1 < 1_000_000_000,
{
    match since.elapsed() {
        Ok(duration) => Some((duration.as_secs(), duration.subsec_nanos())),
        Err(_) => None,
    }
}

/// `uuid::Uuid::new_v4`, as a number: a random identifier. Its version
/// digit is 4 and its variant bits are `10`.
#[verifier::external_body]
fn random_uuid() -> (id: u128)
    ensures
        (id / 0x1000_0000_0000_0000_0000u128) % 16 == 4,
        (id / 0x4000_0000_0000_0000u128) % 4 == 2,
{
    uuid::Uuid::new_v4().as_u128()
}

/// `uuid::Uuid`'s `to_string`, for the identifier with the number `id`: its
/// thirty-two hexadecimal digits in lower case, most significant first, in
/// groups of eight, four, four, four and twelve with hyphens between.
#[verifier::external_body]
fn uuid_string(id: u128) -> (text: String)
    ensures
        text@ == uuid_text(id),
{
    uuid::Uuid::from_u128(id).to_string()
}

/// The hexadecimal digit of the value `d`, in lower case.
pub open spec fn hex_digit(d: int) -> char {
    if d == 0 {
        '0'
    } else if d == 1 {
        '1'
    } else if d == 2 {
        '2'
    } else if d == 3 {
        '3'
    } else if d == 4 {
        '4'
    } else if d == 5 {
        '5'
    } else if d == 6 {
        '6'
    } else if d == 7 {
        '7'
    } else if d == 8 {
        '8'
    } else if d == 9 {
        '9'
    } else if d == 10 {
        'a'
    } else if d == 11 {
        'b'
    } else if d == 12 {
        'c'
    } else if d == 13 {
        'd'
    } else if d == 14 {
        'e'
    } else {
        'f'
    }
}

/// The lowest `digits` hexadecimal digits of `value`, most significant first.
pub open spec fn hex_text(value: nat, digits: nat) -> Seq<char>
    decreases digits,
{
    if digits == 0 {
        Seq::empty()
    } else {
        hex_text(value / 16, (digits - 1) as nat).push(hex_digit((value % 16) as int))
    }
}

/// How an identifier is written: as `xxxxxxxx-xxxx-xxxx-xxxx-xxxxxxxxxxxx`.
pub open spec fn uuid_text(id: u128) -> Seq<char> {
    hex_text((id / 0x1_0000_0000_0000_0000_0000_0000u128) as nat, 8) + seq!['-'] + hex_text(
        (id / 0x1_0000_0000_0000_0000_0000u128) as nat,
        4,
    ) + seq!['-'] + hex_text((id / 0x1_0000_0000_0000_0000u128) as nat, 4) + seq!['-'] + hex_text(
        (id / 0x1_0000_0000_0000u128) as nat,
        4,
    ) + seq!['-'] + hex_text(id as nat, 12)
}

/// The identity of a game as text.
pub fn game_id_string(id: GameId) -> (text: String)
    ensures
        text@ == uuid_text(id),
{
    uuid_string(id)
}

// ---------------------------------------------------------------------------
// Rooms
// ---------------------------------------------------------------------------
/// A room: a table with what the players are called, who plays them, and how
/// the game stands. The names, kinds and timeout counts are kept by seat.
pub struct GameRoom {
    pub id: GameId,
    pub name: String,
    pub max_players: usize,
    pub state: GameState,
    pub player_names: Vec<String>,
    pub player_types: Vec<PlayerType>,
    pub started: bool,
    pub game_finished: bool,
    pub winner_id: Option<PlayerId>,
    pub action_log: Vec<String>,
    pub last_hand_winner: Option<PlayerId>,
    pub last_hand_amount: Option<u32>,
    pub last_hand_description: Option<String>,
    pub last_hand_cards: Option<Vec<String>>,
    pub last_action_time: SystemTime,
    pub player_timeout_strikes: Vec<u32>,
}

/// A room as the rules see it. The time of the last action is left out.
pub struct RoomView {
    pub id: GameId,
    pub name: Seq<char>,
    pub max_players: int,
    pub table: TableView,
    pub names: Seq<Seq<char>>,
    pub kinds: Seq<PlayerType>,
    pub started: bool,
    pub finished: bool,
    pub winner_id: Option<Seq<char>>,
    pub log: Seq<Seq<char>>,
    pub last_hand_winner: Option<Seq<char>>,
    pub last_hand_amount: Option<int>,
    pub last_hand_description: Option<Seq<char>>,
    pub last_hand_cards: Option<Seq<Seq<char>>>,
    pub strikes: Seq<int>,
}

impl View for GameRoom {
    type V = RoomView;

    open spec fn view(&self) -> RoomView {
        RoomView {
            id: self.id,
            name: self.name@,
            max_players: self.max_players as int,
            table: self.state@,
            names: texts(self.player_names@),
            kinds: self.player_types@,
            started: self.started,
            finished: self.game_finished,
            winner_id: text_of(self.winner_id),
            log: texts(self.action_log@),
            last_hand_winner: text_of(self.last_hand_winner),
            last_hand_amount: amount_of(self.last_hand_amount),
            last_hand_description: text_of(self.last_hand_description),
            last_hand_cards: texts_of(self.last_hand_cards),
            strikes: self.player_timeout_strikes@.map_values(|count: u32| count as int),
        }
    }
}

/// The stack that the next player to take a seat gets: that of the first seat,
/// or the default one at an empty table.
pub open spec fn seat_stack(seats: Seq<SeatView>) -> int {
    if seats.len() > 0 {
        seats[0].chips
    } else {
        DEFAULT_STACK as int
    }
}

impl RoomView {
    /// A new room without players.
    pub open spec fn fresh(
        id: GameId,
        name: Seq<char>,
        max_players: int,
        chips: int,
        small_blind: int,
        big_blind: int,
    ) -> RoomView {
        RoomView {
            id: id,
            name: name,
            max_players: max_players,
            table: TableView::initial(Seq::empty(), chips, small_blind, big_blind),
            names: Seq::empty(),
            kinds: Seq::empty(),
            started: false,
            finished: false,
            winner_id: None,
            log: Seq::empty(),
            last_hand_winner: None,
            last_hand_amount: None,
            last_hand_description: None,
            last_hand_cards: None,
            strikes: Seq::empty(),
        }
    }

    /// How many players the room takes: as many as it was made for, but no
    /// more than a table has seats.
    pub open spec fn capacity(self) -> int {
        if self.max_players <= MAX_SEATS {
            self.max_players
        } else {
            MAX_SEATS as int
        }
    }

    /// The table before the game has started: nothing in the pot, the dealer
    /// button and the turn on the first seat, and the same stack on every
    /// seat, small enough for a full table of them.
    pub open spec fn lobby(self) -> bool {
        &&& self.table.seats.len() <= MAX_SEATS
        &&& self.table.acted.len() == self.table.seats.len()
        &&& self.table.pot == 0
        &&& self.table.dealer_position == 0
        &&& self.table.current_player == 0
        &&& 0 <= seat_stack(self.table.seats)
        &&& seat_stack(self.table.seats) * MAX_SEATS <= u32::MAX
        &&& forall|i: int|
            0 <= i < self.table.seats.len() ==> (#[trigger] self.table.seats[i]).chips
                == seat_stack(self.table.seats)
        &&& 0 <= self.table.small_blind <= u32::MAX
        &&& 0 <= self.table.big_blind <= u32::MAX
    }

    /// The room is in order: every seat has its name, kind and timeout count,
    /// no player has two seats, and the table is in order for betting once
    /// the game has started.
    pub open spec fn wf(self) -> bool {
        &&& self.names.len() == self.table.seats.len()
        &&& self.kinds.len() == self.table.seats.len()
        &&& self.strikes.len() == self.table.seats.len()
        &&& forall|i: int, j: int|
            0 <= i < j < self.table.seats.len() ==> (#[trigger] self.table.seats[i]).id != (
            #[trigger] self.table.seats[j]).id
        &&& if self.started {
            self.table.wf()
        } else {
            self.lobby()
        }
    }

    /// Why the player `id` cannot take a seat, if they cannot: the game has
    /// started, the room is full, or they have a seat already.
    pub open spec fn join_rejection(self, id: Seq<char>) -> Option<Seq<char>> {
        if self.started {
            Some("La partie a déjà commencé"@)
        } else if self.table.seats.len() >= self.capacity() {
            Some("La partie est pleine"@)
        } else if seat_of(self.table.seats, id, 0) is Some {
            Some("Ce joueur est déjà dans la partie"@)
        } else {
            None
        }
    }

    /// The room with one more seat, for the player `id`.
    pub open spec fn joined(self, id: Seq<char>, name: Seq<char>, kind: PlayerType) -> RoomView {
        RoomView {
            table: TableView {
                seats: self.table.seats.push(
                    SeatView {
                        id: id,
                        name: name,
                        chips: seat_stack(self.table.seats),
                        hole_cards: Seq::empty(),
                        current_bet: 0,
                        status: PlayerStatus::Active,
                    },
                ),
                acted: self.table.acted.push(false),
                ..self.table
            },
            names: self.names.push(name),
            kinds: self.kinds.push(kind),
            strikes: self.strikes.push(0),
            ..self
        }
    }

    /// Why the game cannot be started, if it cannot: it has started already,
    /// or fewer than two players have a seat.
    pub open spec fn start_rejection(self) -> Option<Seq<char>> {
        if self.started {
            Some("La partie a déjà commencé"@)
        } else if self.table.seats.len() < 2 {
            Some("Il faut au moins 2 joueurs pour commencer"@)
        } else {
            None
        }
    }

    /// The room with the game started and the first hand dealt.
    pub open spec fn begun(self, first: Seq<Card>, second: Seq<Card>) -> RoomView {
        RoomView { started: true, table: self.table.hands_dealt(first, second), ..self }
    }

    /// What the player `id` is called, if they have a seat.
    pub open spec fn name_of(self, id: Seq<char>) -> Option<Seq<char>> {
        match seat_of(self.table.seats, id, 0) {
            Some(seat) => Some(self.names[seat]),
            None => None,
        }
    }

    /// What the player `viewer` is shown of the seat: all but its hole cards,
    /// and these too if the seat is their own.
    pub open spec fn seat_shown(self, seat: int, viewer: Seq<char>) -> PlayerInfoView {
        PlayerInfoView {
            id: self.table.seats[seat].id,
            name: self.names[seat],
            chips: self.table.seats[seat].chips,
            current_bet: self.table.seats[seat].current_bet,
            status: status_name(self.table.seats[seat].status),
            player_type: self.kinds[seat],
            cards: if self.table.seats[seat].id == viewer {
                Some(card_texts(self.table.seats[seat].hole_cards))
            } else {
                None
            },
        }
    }

    /// The latest entries of the log, as many as a player is shown.
    pub open spec fn log_tail(self) -> Seq<Seq<char>> {
        if self.log.len() > LOG_WINDOW {
            self.log.subrange(self.log.len() - LOG_WINDOW, self.log.len() as int)
        } else {
            self.log
        }
    }

    /// The pot that is shown: the pot of the table, or the stack of the
    /// winner once the game is over.
    pub open spec fn shown_pot(self) -> int {
        if self.finished {
            match self.winner_id {
                Some(winner) => match seat_of(self.table.seats, winner, 0) {
                    Some(seat) => self.table.seats[seat].chips,
                    None => self.table.pot,
                },
                None => self.table.pot,
            }
        } else {
            self.table.pot
        }
    }

    /// The game has started and it is the turn of the player `viewer`.
    pub open spec fn on_turn(self, viewer: Seq<char>) -> bool {
        self.started && self.table.seats[self.table.current_player].id == viewer
    }

    /// What the player `viewer` is shown of the game. Of the hole cards they
    /// see their own and no others.
    pub open spec fn shown_to(self, viewer: Seq<char>) -> GameStateView {
        let seat = seat_of(self.table.seats, viewer, 0);
        GameStateView {
            game_id: self.id,
            phase: phase_name(self.table.phase),
            pot: self.shown_pot(),
            current_bet: self.table.current_bet,
            community_cards: card_texts(self.table.community_cards),
            players: Seq::new(self.table.seats.len(), |i: int| self.seat_shown(i, viewer)),
            current_player_id: if self.started {
                Some(self.table.seats[self.table.current_player].id)
            } else {
                None
            },
            your_player_id: Some(viewer),
            your_chips: match seat {
                Some(i) => Some(self.table.seats[i].chips),
                None => None,
            },
            your_cards: match seat {
                Some(i) => Some(card_texts(self.table.seats[i].hole_cards)),
                None => None,
            },
            valid_actions: if self.on_turn(viewer) {
                self.table.legal_actions().map_values(|action: EngineAction| action_name(action))
            } else {
                Seq::empty()
            },
            game_finished: self.finished,
            winner_id: self.winner_id,
            winner_name: match self.winner_id {
                Some(winner) => self.name_of(winner),
                None => None,
            },
            action_log: Some(self.log_tail()),
            last_hand_winner: self.last_hand_winner,
            last_hand_winner_name: match self.last_hand_winner {
                Some(winner) => self.name_of(winner),
                None => None,
            },
            last_hand_amount: self.last_hand_amount,
            last_hand_description: self.last_hand_description,
            last_hand_cards: self.last_hand_cards,
        }
    }

    // -----------------------------------------------------------------------
    // Timeouts
    // -----------------------------------------------------------------------
    /// The timeouts of the seat on turn, one more than before.
    pub open spec fn strikes_now(self) -> int {
        if self.strikes[self.table.current_player] < u32::MAX {
            self.strikes[self.table.current_player] + 1
        } else {
            self.strikes[self.table.current_player]
        }
    }

    /// The seat on turn has timed out too often.
    pub open spec fn ejects(self) -> bool {
        self.strikes_now() >= MAX_STRIKES
    }

    /// The room with the timeout of the seat on turn counted and written to
    /// the log.
    pub open spec fn struck(self) -> RoomView {
        let seat = self.table.current_player;
        let name = self.names[seat];
        RoomView {
            strikes: self.strikes.update(seat, self.strikes_now()),
            log: self.log.push(
                if self.ejects() {
                    "🚫 "@ + name + " ejected (too many timeouts)"@
                } else {
                    "⏰ "@ + name + " timeout (fold) ["@ + decimal(self.strikes_now() as nat)
                        + "/3]"@
                },
            ),
            ..self
        }
    }

    /// The room with the game over if no more than one seat is still in the
    /// game; the first such seat has won.
    pub open spec fn forfeit_checked(self) -> RoomView {
        if count_in_game(self.table.seats) <= 1 {
            match first_in_game(self.table.seats, 0) {
                Some(winner) => RoomView {
                    finished: true,
                    winner_id: Some(self.table.seats[winner].id),
                    ..self
                },
                None => self,
            }
        } else {
            self
        }
    }

    /// The room with the table after the seat on turn was made to fold.
    pub open spec fn folded_out(self, ejected: bool) -> RoomView {
        RoomView { table: folded_table(self.table, ejected), ..self }
    }

    /// The room with the next hand started.
    pub open spec fn dealt_next(self, first: Seq<Card>, second: Seq<Card>) -> RoomView {
        RoomView { table: self.table.hands_dealt(first, second), ..self }
    }

    /// The room after the seat on turn was made to fold. If the table lets the
    /// seat fold, it folds, and is put out of the game if it is ejected; the
    /// game is over if no more than one seat is in the game then; and the
    /// next hand is started if the fold has ended the hand. If the table does
    /// not let the seat fold, the room is as it was.
    pub open spec fn fold_forced(self, ejected: bool, first: Seq<Card>,
        second: Seq<Card>) -> RoomView {
        let seat = self.table.current_player;
        let id = self.table.seats[seat].id;
        if self.table.rejection(id, EngineAction::Fold) is Some {
            self
        } else {
            let checked = self.folded_out(ejected).forfeit_checked();
            if self.table.action_ends_hand(seat, EngineAction::Fold) {
                checked.dealt_next(first, second)
            } else {
                checked
            }
        }
    }

    /// The room after the seat on turn has timed out: the timeout is counted
    /// and written to the log, and the seat is made to fold; it is ejected if
    /// it has timed out too often.
    pub open spec fn timeout_outcome(self, first: Seq<Card>, second: Seq<Card>) -> RoomView {
        self.struck().fold_forced(self.ejects(), first, second)
    }

    // -----------------------------------------------------------------------
    // Actions
    // -----------------------------------------------------------------------
    /// Why no action is taken at all, if none is: the game has not started,
    /// or it is over.
    pub open spec fn submit_rejection(self) -> Option<Seq<char>> {
        if !self.started {
            Some("La partie n'a pas encore commencé"@)
        } else if self.finished {
            Some("La partie est terminée"@)
        } else {
            None
        }
    }

    /// How an action is written in the room's log.
    pub open spec fn action_text(self, action: EngineAction) -> Seq<char> {
        match action {
            EngineAction::Fold => "FOLD"@,
            EngineAction::Check => "CHECK"@,
            EngineAction::Call => "CALL ("@ + decimal(self.table.current_bet as nat) + ")"@,
            EngineAction::Raise(amount) => "RAISE ("@ + decimal(amount as nat) + ")"@,
            EngineAction::AllIn => "ALL-IN"@,
        }
    }

    /// The room with the action that the player `id` asks for written to the
    /// log, under their name if they have a seat.
    pub open spec fn announced(self, id: Seq<char>, action: EngineAction) -> RoomView {
        RoomView {
            log: self.log.push(
                "["@ + phase_name(self.table.phase) + "] "@ + (match self.name_of(id) {
                    Some(name) => name,
                    None => id,
                }) + " -> "@ + self.action_text(action),
            ),
            ..self
        }
    }

    /// Why the table does not take the action, if it does not.
    pub open spec fn refusal(self, id: Seq<char>, action: EngineAction) -> Option<Seq<char>> {
        self.table.rejection(id, action)
    }

    /// The room with the winner of the showdown noted as the last hand, if a
    /// seat was left in the hand: its player, its cards, and `amount` as what
    /// was played for.
    pub open spec fn hand_noted(self, amount: int) -> RoomView {
        match self.table.showdown_winner() {
            Some(winner) => RoomView {
                last_hand_winner: Some(self.table.seats[winner].id),
                last_hand_amount: Some(amount),
                last_hand_description: Some("Main gagnante"@),
                last_hand_cards: Some(card_texts(self.table.seats[winner].hole_cards)),
                ..self
            },
            None => self,
        }
    }

    /// The room with one more entry in its log.
    pub open spec fn logged(self, entry: Seq<char>) -> RoomView {
        RoomView { log: self.log.push(entry), ..self }
    }

    /// The room with the game over if one seat alone has chips; the first such
    /// seat has won.
    pub open spec fn holders_checked(self) -> RoomView {
        if chip_holders(self.table.seats) == 1 {
            match first_holder(self.table.seats, 0) {
                Some(winner) => RoomView {
                    finished: true,
                    winner_id: Some(self.table.seats[winner].id),
                    ..self
                },
                None => self,
            }
        } else {
            self
        }
    }

    /// The room with the timeouts of the seat forgotten and, if asked for,
    /// the showdown noted as the last hand.
    pub open spec fn recorded(self, seat: int, noting: bool, pot: int) -> RoomView {
        let played = RoomView { strikes: self.strikes.update(seat, 0), ..self };
        if noting {
            played.hand_noted(pot).logged("[SHOWDOWN] Nouveau tour commence"@)
        } else {
            played
        }
    }

    /// The room after the table has taken an action of the seat: the timeouts
    /// of the seat are forgotten, the showdown is noted if asked for, the next
    /// hand is started if the action has ended the hand, and the game is over
    /// if one seat alone has chips then.
    pub open spec fn followed(
        self,
        seat: int,
        noting: bool,
        pot: int,
        ends: bool,
        first: Seq<Card>,
        second: Seq<Card>,
    ) -> RoomView {
        if ends {
            self.recorded(seat, noting, pot).dealt_next(first, second).holders_checked()
        } else {
            self.recorded(seat, noting, pot).holders_checked()
        }
    }

    /// The room after the table has taken the action of the seat on turn, with
    /// all that follows. A hand that has gone from the river to the showdown
    /// is noted, with the pot as it was before the action.
    pub open spec fn taken(self, action: EngineAction, first: Seq<Card>,
        second: Seq<Card>) -> RoomView {
        let seat = self.table.current_player;
        let applied = self.table.action_applied(seat, action);
        (RoomView { table: applied, ..self }).followed(
            seat,
            self.table.phase == GamePhase::River && applied.phase == GamePhase::Showdown,
            self.table.pot,
            self.table.action_ends_hand(seat, action),
            first,
            second,
        )
    }

    /// The room after the player `id` has asked for the action. The action is
    /// written to the log. If the table takes it, the timeouts of the seat are
    /// forgotten. A hand that has gone from the river to the showdown is noted
    /// as the last hand, with the pot as it was before the action. If the
    /// action has ended the hand, the next hand is started. The game is over
    /// if one seat alone has chips then.
    pub open spec fn submitted(
        self,
        id: Seq<char>,
        action: EngineAction,
        first: Seq<Card>,
        second: Seq<Card>,
    ) -> RoomView {
        let said = self.announced(id, action);
        if said.refusal(id, action) is Some {
            said
        } else {
            said.taken(action, first, second)
        }
    }

    /// The room in a few words.
    pub open spec fn summary(self) -> GameSummaryView {
        GameSummaryView {
            game_id: self.id,
            name: self.name,
            player_count: self.table.seats.len() as int,
            max_players: self.max_players,
            phase: phase_name(self.table.phase),
            pot: self.table.pot,
        }
    }
}

/// The table after the seat on turn was made to fold: the fold with all that
/// follows from it within the hand, and the seat out of the game if it is
/// ejected.
pub open spec fn folded_table(table: TableView, ejected: bool) -> TableView {
    let folded = table.action_applied(table.current_player, EngineAction::Fold);
    if ejected {
        folded.retired(table.current_player)
    } else {
        folded
    }
}

/// The room is as it was, or, if its game is on, as a timeout of the seat on
/// turn leaves it.
pub open spec fn timed_or_same(before: RoomView, after: RoomView) -> bool {
    after == before || (before.started && !before.finished && exists|
        first: Seq<Card>,
        second: Seq<Card>,
    |
        is_shuffled(first) && is_shuffled(second) && after == #[trigger] before.timeout_outcome(
            first,
            second,
        ))
}

/// The time gone by is more than a player has for their turn.
pub open spec fn timed_out(elapsed: Option<(u64, u32)>) -> bool {
    elapsed matches Some(e) && (e.0 > TURN_TIMEOUT_SECS || (e.0 == TURN_TIMEOUT_SECS && e.1 > 0))
}

/// A seat of this status is still in the game.
pub open spec fn in_game(status: PlayerStatus) -> bool {
    status != PlayerStatus::Eliminated && status != PlayerStatus::SittingOut
}

/// How many seats are still in the game.
pub open spec fn count_in_game(seats: Seq<SeatView>) -> nat
    decreases seats.len(),
{
    if seats.len() == 0 {
        0
    } else {
        count_in_game(seats.drop_last()) + if in_game(seats.last().status) {
            1nat
        } else {
            0nat
        }
    }
}

/// The first seat from `from` on that is still in the game.
pub open spec fn first_in_game(seats: Seq<SeatView>, from: int) -> Option<int>
    decreases seats.len() - from,
{
    if from >= seats.len() {
        None
    } else if in_game(seats[from].status) {
        Some(from)
    } else {
        first_in_game(seats, from + 1)
    }
}

/// How many seats have chips.
pub open spec fn chip_holders(seats: Seq<SeatView>) -> nat
    decreases seats.len(),
{
    if seats.len() == 0 {
        0
    } else {
        chip_holders(seats.drop_last()) + if seats.last().chips > 0 {
            1nat
        } else {
            0nat
        }
    }
}

/// The first seat from `from` on that has chips.
pub open spec fn first_holder(seats: Seq<SeatView>, from: int) -> Option<int>
    decreases seats.len() - from,
{
    if from >= seats.len() {
        None
    } else if seats[from].chips > 0 {
        Some(from)
    } else {
        first_holder(seats, from + 1)
    }
}

/// No seat from `from` on has the identity `id` exactly when the search from
/// there finds none; a seat that is found has it, and no seat before it.
pub proof fn lemma_seat_of(seats: Seq<SeatView>, id: Seq<char>, from: int)
    requires
        0 <= from,
    ensures
        match seat_of(seats, id, from) {
            Some(seat) => from <= seat < seats.len() && seats[seat].id == id && forall|i: int|
                from <= i < seat ==> (#[trigger] seats[i]).id != id,
            None => forall|i: int| from <= i < seats.len() ==> (#[trigger] seats[i]).id != id,
        },
    decreases seats.len() - from,
{
    if from < seats.len() && seats[from].id != id {
        lemma_seat_of(seats, id, from + 1);
    }
}

impl GameRoom {
    /// The room is in order.
    pub open spec fn wf(&self) -> bool {
        self@.wf()
    }

    /// A new room without players, made now. The stack asked for is not used:
    /// the first player gets the default one, and the others the same. However
    /// many players the room is made for, it seats no more than a table has
    /// seats: the deck must serve two cards each, the board and the burnt
    /// cards.
    pub fn new(
        id: GameId,
        name: String,
        max_players: usize,
        starting_chips: u32,
        small_blind: u32,
        big_blind: u32,
    ) -> (room: GameRoom)
        ensures
            room@ == RoomView::fresh(
                id,
                name@,
                max_players as int,
                starting_chips as int,
                small_blind as int,
                big_blind as int,
            ),
            room.wf(),
    {
        Self::new_at(id, name, max_players, starting_chips, small_blind, big_blind, time_now())
    }

    /// A new room without players, made at the time `now`, which is the time
    /// of its last action.
    pub fn new_at(
        id: GameId,
        name: String,
        max_players: usize,
        starting_chips: u32,
        small_blind: u32,
        big_blind: u32,
        now: SystemTime,
    ) -> (room: GameRoom)
        ensures
            room@ == RoomView::fresh(
                id,
                name@,
                max_players as int,
                starting_chips as int,
                small_blind as int,
                big_blind as int,
            ),
            room.last_action_time == now,
            room.wf(),
    {
        let players: Vec<(PlayerId, String)> = Vec::new();
        let state = GameState::new(players, starting_chips, small_blind, big_blind);
        let room = GameRoom {
            id,
            name,
            max_players,
            state,
            player_names: Vec::new(),
            player_types: Vec::new(),
            started: false,
            game_finished: false,
            winner_id: None,
            action_log: Vec::new(),
            last_hand_winner: None,
            last_hand_amount: None,
            last_hand_description: None,
            last_hand_cards: None,
            last_action_time: now,
            player_timeout_strikes: Vec::new(),
        };
        proof {
            assert(crate::game::entry_views(players@) =~= Seq::empty());
            assert(room@.names =~= Seq::empty());
            assert(room@.log =~= Seq::empty());
            assert(room@.strikes =~= Seq::empty());
            assert(room@.kinds =~= Seq::empty());
        }
        room
    }

    /// Gives the player a seat, with the stack of the first seat, and returns
    /// its position; or refuses, and leaves the room as it is.
    pub fn add_player(
        &mut self,
        player_id: PlayerId,
        name: String,
        player_type: PlayerType,
    ) -> (result: Result<usize, String>)
        requires
            old(self).wf(),
        ensures
            match result {
                Err(reason) => old(self)@.join_rejection(player_id@) == Some(reason@)
                    && final(self)@ == old(self)@,
                Ok(position) => old(self)@.join_rejection(player_id@) is None
                    && position == old(self)@.table.seats.len()
                    && final(self)@ == old(self)@.joined(
                    player_id@,
                    name@,
                    player_type,
                ),
            },
            final(self).last_action_time == old(self).last_action_time,
            final(self).wf(),
    {
        if self.started {
            return Err(String::from_str("La partie a déjà commencé"));
        }
        if self.state.players.len() >= self.max_players || self.state.players.len() >= MAX_SEATS {
            return Err(String::from_str("La partie est pleine"));
        }
        if self.state.find_seat(&player_id).is_some() {
            return Err(String::from_str("Ce joueur est déjà dans la partie"));
        }
        let position = self.state.players.len();
        let starting_chips = if self.state.players.len() > 0 {
            self.state.players[0].chips
        } else {
            DEFAULT_STACK
        };
        proof {
            lemma_seat_of(self@.table.seats, player_id@, 0);
        }
        self.player_names.push(name.clone());
        self.player_types.push(player_type);
        self.player_timeout_strikes.push(0);
        self.state.players.push(Player::new(player_id, name, starting_chips));
        self.state.players_acted.push(false);
        proof {
            let after = old(self)@.joined(player_id@, name@, player_type);
            assert(self@.table.seats =~= after.table.seats);
            assert(self@.table.acted =~= after.table.acted);
            assert(self@.names =~= after.names);
            assert(self@.kinds =~= after.kinds);
            assert(self@.strikes =~= after.strikes);
            assert(self@.table == after.table);
            assert(self@ == after);
        }
        Ok(position)
    }

    /// The room in a few words.
    pub fn get_summary(&self) -> (summary: GameSummary)
        ensures
            summary@ == self@.summary(),
    {
        GameSummary {
            game_id: self.id,
            name: self.name.clone(),
            player_count: self.state.players.len(),
            max_players: self.max_players,
            phase: phase_to_string(&self.state.phase),
            pot: self.state.pot,
        }
    }
}

/// A copy of a text that may be missing.
fn copy_text(text: &Option<String>) -> (copy: Option<String>)
    ensures
        text_of(copy) == text_of(*text),
{
    match text {
        Some(t) => Some(t.clone()),
        None => None,
    }
}

/// A copy of the entries from `from` on.
fn copy_texts(entries: &Vec<String>, from: usize) -> (copy: Vec<String>)
    requires
        from <= entries@.len(),
    ensures
        texts(copy@) == texts(entries@).subrange(from as int, entries@.len() as int),
{
    let mut copy: Vec<String> = Vec::new();
    let mut i: usize = from;
    while i < entries.len()
        invariant
            from <= i <= entries@.len(),
            copy@.len() == i - from,
            forall|k: int| 0 <= k < copy@.len() ==> (#[trigger] copy@[k])@ == entries@[from + k]@,
        decreases entries@.len() - i,
    {
        copy.push(entries[i].clone());
        i += 1;
    }
    assert(texts(copy@) =~= texts(entries@).subrange(from as int, entries@.len() as int));
    copy
}

/// The hole cards of others stay hidden: what a player is shown of a seat holds
/// cards only if the seat is their own, and then its own cards.
pub proof fn lemma_only_own_cards(room: RoomView, viewer: Seq<char>, seat: int)
    requires
        0 <= seat < room.table.seats.len(),
    ensures
        room.shown_to(viewer).players[seat].cards is Some <==> room.table.seats[seat].id
            == viewer,
        room.shown_to(viewer).players[seat].cards matches Some(cards) ==> cards == card_texts(
            room.table.seats[seat].hole_cards,
        ),
{
}

impl GameRoom {
    /// Starts the game and deals the first hand, or refuses and leaves the
    /// room as it is.
    pub fn start_game(&mut self) -> (result: Result<(), String>)
        requires
            old(self).wf(),
        ensures
            match result {
                Err(reason) => old(self)@.start_rejection() == Some(reason@) && final(self)@
                    == old(self)@,
                Ok(_) => old(self)@.start_rejection() is None && exists|
                    first: Seq<Card>,
                    second: Seq<Card>,
                |
                    is_shuffled(first) && is_shuffled(second)
                        && final(self)@ == #[trigger] old(self)@.begun(first, second),
            },
            result is Err ==> final(self).last_action_time == old(self).last_action_time,
            final(self).wf(),
    {
        self.start_game_at(time_now())
    }

    /// Starts the game at the time `now` and deals the first hand, or refuses
    /// and leaves the room as it is. The time of the last action is `now` once
    /// the game is started.
    pub fn start_game_at(&mut self, now: SystemTime) -> (result: Result<(), String>)
        requires
            old(self).wf(),
        ensures
            match result {
                Err(reason) => old(self)@.start_rejection() == Some(reason@) && final(self)@
                    == old(self)@,
                Ok(_) => old(self)@.start_rejection() is None && exists|
                    first: Seq<Card>,
                    second: Seq<Card>,
                |
                    is_shuffled(first) && is_shuffled(second)
                        && final(self)@ == #[trigger] old(self)@.begun(first, second),
            },
            final(self).last_action_time == if result is Ok {
                now
            } else {
                old(self).last_action_time
            },
            final(self).wf(),
    {
        if self.started {
            return Err(String::from_str("La partie a déjà commencé"));
        }
        if self.state.players.len() < 2 {
            return Err(String::from_str("Il faut au moins 2 joueurs pour commencer"));
        }
        proof {
            let seats = self@.table.seats;
            lemma_total_chips_equal(seats, seat_stack(seats));
            assert(seats.len() * seat_stack(seats) <= seat_stack(seats) * MAX_SEATS)
                by (nonlinear_arith)
                requires
                    0 <= seats.len() <= MAX_SEATS,
                    0 <= seat_stack(seats),
            ;
        }
        self.started = true;
        self.last_action_time = now;
        let ghost before = self.state@;
        self.state.start_new_hand();
        proof {
            let (first, second) = choose|first: Seq<Card>, second: Seq<Card>|
                is_shuffled(first) && is_shuffled(second) && self.state@
                    == #[trigger] before.hands_dealt(first, second);
            assert(self@ == old(self)@.begun(first, second));
            lemma_hands_dealt_ids(before, first, second);
        }
        Ok(())
    }

    /// What the seat's player is called.
    fn seat_name(&self, seat: usize) -> (name: String)
        requires
            seat < self.player_names@.len(),
        ensures
            name@ == self@.names[seat as int],
    {
        self.player_names[seat].clone()
    }

    /// What the player `player_id` is called, if they have a seat.
    pub fn player_name(&self, player_id: &PlayerId) -> (name: Option<String>)
        requires
            self.wf(),
        ensures
            text_of(name) == self@.name_of(player_id@),
    {
        match self.state.find_seat(player_id) {
            Some(seat) => Some(self.seat_name(seat)),
            None => None,
        }
    }

    /// What the player `viewer` is shown of the seat.
    fn seat_info(&self, seat: usize, viewer: &PlayerId) -> (info: PlayerInfo)
        requires
            self.wf(),
            seat < self.state.players@.len(),
        ensures
            info@ == self@.seat_shown(seat as int, viewer@),
    {
        let player = &self.state.players[seat];
        let cards = if player.id == *viewer {
            Some(cards_to_strings(&player.hole_cards))
        } else {
            None
        };
        PlayerInfo {
            id: player.id.clone(),
            name: self.seat_name(seat),
            chips: player.chips,
            current_bet: player.current_bet,
            status: String::from_str(status_str(player.status)),
            player_type: self.player_types[seat],
            cards,
        }
    }

    /// The pot that is shown: the pot of the table, or the stack of the
    /// winner once the game is over.
    fn pot_shown(&self) -> (pot: u32)
        ensures
            pot == self@.shown_pot(),
    {
        if self.game_finished {
            match &self.winner_id {
                Some(winner) => match self.state.find_seat(winner) {
                    Some(seat) => self.state.players[seat].chips,
                    None => self.state.pot,
                },
                None => self.state.pot,
            }
        } else {
            self.state.pot
        }
    }

    /// What the player `player_id` is shown of the game: the table, every
    /// seat without its hole cards, their own hole cards, what they may do if
    /// it is their turn, and the latest entries of the log.
    pub fn get_state_for_player(&self, player_id: &PlayerId) -> (shown: GameStateResponse)
        requires
            self.wf(),
        ensures
            shown@ == self@.shown_to(player_id@),
    {
        let own = self.state.find_seat(player_id);
        let your_cards = match own {
            Some(seat) => Some(cards_to_strings(&self.state.players[seat].hole_cards)),
            None => None,
        };
        let your_chips = match own {
            Some(seat) => Some(self.state.players[seat].chips),
            None => None,
        };
        let current_player_id = if self.started {
            Some(self.state.players[self.state.current_player].id.clone())
        } else {
            None
        };
        let mut valid_actions: Vec<String> = Vec::new();
        if self.started && self.state.players[self.state.current_player].id == *player_id {
            let actions = self.state.get_valid_actions();
            let mut k: usize = 0;
            while k < actions.len()
                invariant
                    k <= actions@.len(),
                    valid_actions@.len() == k,
                    forall|j: int|
                        0 <= j < k ==> (#[trigger] valid_actions@[j])@ == action_name(actions@[j]),
                decreases actions@.len() - k,
            {
                valid_actions.push(action_to_string(&actions[k]));
                k += 1;
            }
            assert(texts(valid_actions@) =~= self@.table.legal_actions().map_values(
                |action: EngineAction| action_name(action),
            ));
        } else {
            assert(texts(valid_actions@) =~= Seq::empty());
        }
        let mut players: Vec<PlayerInfo> = Vec::new();
        let mut i: usize = 0;
        while i < self.state.players.len()
            invariant
                self.wf(),
                i <= self.state.players@.len(),
                players@.len() == i,
                forall|j: int|
                    0 <= j < i ==> (#[trigger] players@[j])@ == self@.seat_shown(j, player_id@),
            decreases self.state.players@.len() - i,
        {
            players.push(self.seat_info(i, player_id));
            i += 1;
        }
        let winner_name = match &self.winner_id {
            Some(winner) => self.player_name(winner),
            None => None,
        };
        let last_hand_winner_name = match &self.last_hand_winner {
            Some(winner) => self.player_name(winner),
            None => None,
        };
        let from = if self.action_log.len() > LOG_WINDOW {
            self.action_log.len() - LOG_WINDOW
        } else {
            0
        };
        let log = copy_texts(&self.action_log, from);
        let last_hand_cards = match &self.last_hand_cards {
            Some(cards) => Some(copy_texts(cards, 0)),
            None => None,
        };
        let shown = GameStateResponse {
            game_id: self.id,
            phase: phase_to_string(&self.state.phase),
            pot: self.pot_shown(),
            current_bet: self.state.current_bet,
            community_cards: cards_to_strings(&self.state.community_cards),
            players,
            current_player_id,
            your_player_id: Some(player_id.clone()),
            your_chips,
            your_cards,
            valid_actions,
            game_finished: self.game_finished,
            winner_id: copy_text(&self.winner_id),
            winner_name,
            action_log: Some(log),
            last_hand_winner: copy_text(&self.last_hand_winner),
            last_hand_winner_name,
            last_hand_amount: self.last_hand_amount,
            last_hand_description: copy_text(&self.last_hand_description),
            last_hand_cards,
        };
        proof {
            let wanted = self@.shown_to(player_id@);
            assert(shown@.players =~= wanted.players);
            assert(texts(log@) =~= self@.log_tail());
            assert(shown@.action_log == wanted.action_log);
            if let Some(cards) = &self.last_hand_cards {
                assert(texts(cards@).subrange(0, cards@.len() as int) =~= texts(cards@));
            }
            assert(shown@.last_hand_cards == wanted.last_hand_cards);
        }
        shown
    }
}

/// One more seat adds one to the seats still in the game if it is.
proof fn lemma_count_in_game_step(seats: Seq<SeatView>, i: int)
    requires
        0 <= i < seats.len(),
    ensures
        count_in_game(seats.take(i + 1)) == count_in_game(seats.take(i)) + if in_game(
            seats[i].status,
        ) {
            1nat
        } else {
            0nat
        },
{
    assert(seats.take(i + 1).drop_last() =~= seats.take(i));
}

/// One more seat adds one to the seats with chips if it has some.
proof fn lemma_chip_holders_step(seats: Seq<SeatView>, i: int)
    requires
        0 <= i < seats.len(),
    ensures
        chip_holders(seats.take(i + 1)) == chip_holders(seats.take(i)) + if seats[i].chips > 0 {
            1nat
        } else {
            0nat
        },
{
    assert(seats.take(i + 1).drop_last() =~= seats.take(i));
}

impl GameRoom {
    /// How many seats are still in the game.
    fn seats_in_game(&self) -> (count: usize)
        ensures
            count == count_in_game(self@.table.seats),
    {
        let mut count: usize = 0;
        let mut i: usize = 0;
        while i < self.state.players.len()
            invariant
                i <= self.state.players@.len(),
                count <= i,
                count == count_in_game(self@.table.seats.take(i as int)),
            decreases self.state.players@.len() - i,
        {
            proof {
                lemma_count_in_game_step(self@.table.seats, i as int);
            }
            let status = self.state.players[i].status;
            if status != PlayerStatus::Eliminated && status != PlayerStatus::SittingOut {
                count += 1;
            }
            i += 1;
        }
        assert(self@.table.seats.take(self.state.players@.len() as int) =~= self@.table.seats);
        count
    }

    /// The first seat that is still in the game.
    fn first_seat_in_game(&self) -> (seat: Option<usize>)
        ensures
            first_in_game(self@.table.seats, 0) == match seat {
                Some(i) => Some(i as int),
                None => None,
            },
            seat matches Some(i) ==> i < self.state.players@.len(),
    {
        let mut i: usize = 0;
        while i < self.state.players.len()
            invariant
                i <= self.state.players@.len(),
                first_in_game(self@.table.seats, 0) == first_in_game(self@.table.seats, i as int),
            decreases self.state.players@.len() - i,
        {
            let status = self.state.players[i].status;
            if status != PlayerStatus::Eliminated && status != PlayerStatus::SittingOut {
                return Some(i);
            }
            i += 1;
        }
        None
    }

    /// How many seats have chips.
    fn seats_with_chips(&self) -> (count: usize)
        ensures
            count == chip_holders(self@.table.seats),
    {
        let mut count: usize = 0;
        let mut i: usize = 0;
        while i < self.state.players.len()
            invariant
                i <= self.state.players@.len(),
                count <= i,
                count == chip_holders(self@.table.seats.take(i as int)),
            decreases self.state.players@.len() - i,
        {
            proof {
                lemma_chip_holders_step(self@.table.seats, i as int);
            }
            if self.state.players[i].chips > 0 {
                count += 1;
            }
            i += 1;
        }
        assert(self@.table.seats.take(self.state.players@.len() as int) =~= self@.table.seats);
        count
    }

    /// The first seat that has chips.
    fn first_seat_with_chips(&self) -> (seat: Option<usize>)
        ensures
            first_holder(self@.table.seats, 0) == match seat {
                Some(i) => Some(i as int),
                None => None,
            },
            seat matches Some(i) ==> i < self.state.players@.len(),
    {
        let mut i: usize = 0;
        while i < self.state.players.len()
            invariant
                i <= self.state.players@.len(),
                first_holder(self@.table.seats, 0) == first_holder(self@.table.seats, i as int),
            decreases self.state.players@.len() - i,
        {
            if self.state.players[i].chips > 0 {
                return Some(i);
            }
            i += 1;
        }
        None
    }

    /// Ends the game if no more than one seat is still in it.
    fn check_forfeit(&mut self)
        ensures
            final(self)@ == old(self)@.forfeit_checked(),
            final(self).state == old(self).state,
            final(self).last_action_time == old(self).last_action_time,
    {
        if self.seats_in_game() <= 1 {
            if let Some(winner) = self.first_seat_in_game() {
                self.game_finished = true;
                self.winner_id = Some(self.state.players[winner].id.clone());
            }
        }
    }

    /// Counts a timeout for the seat on turn and writes it to the log.
    fn strike(&mut self)
        requires
            old(self).wf(),
            old(self).started,
        ensures
            final(self)@ == old(self)@.struck(),
            final(self).state == old(self).state,
            final(self).last_action_time == old(self).last_action_time,
            final(self).wf(),
            final(self).started,
            final(self).id == old(self).id,
    {
        let seat = self.state.current_player;
        let player_name = self.seat_name(seat);
        if self.player_timeout_strikes[seat] < u32::MAX {
            self.player_timeout_strikes[seat] += 1;
        }
        let strikes = self.player_timeout_strikes[seat];
        assert(self@.strikes =~= old(self)@.struck().strikes);
        if strikes >= MAX_STRIKES {
            let mut entry = String::from_str("🚫 ");
            entry.append(player_name.as_str());
            entry.append(" ejected (too many timeouts)");
            self.action_log.push(entry);
        } else {
            let mut entry = String::from_str("⏰ ");
            entry.append(player_name.as_str());
            entry.append(" timeout (fold) [");
            entry.append(decimal_string(strikes as u64).as_str());
            entry.append("/3]");
            self.action_log.push(entry);
        }
        assert(self@.log =~= old(self)@.struck().log);
    }

    /// Makes the seat on turn fold, and puts it out of the game for the hand
    /// if it is ejected. Says whether the fold has ended the hand, or nothing
    /// if the table does not let the seat fold.
    fn fold_out(&mut self, player_id: &PlayerId, ejected: bool) -> (done: Option<bool>)
        requires
            old(self)@.table.wf(),
            player_id@ == old(self)@.table.seats[old(self)@.table.current_player].id,
        ensures
            done is None <==> old(self)@.table.rejection(player_id@, EngineAction::Fold) is Some,
            done is None ==> final(self)@ == old(self)@,
            done matches Some(over) ==> {
                &&& over == old(self)@.table.action_ends_hand(
                    old(self)@.table.current_player,
                    EngineAction::Fold,
                )
                &&& final(self)@ == old(self)@.folded_out(ejected)
                &&& final(self)@.table.ready()
                &&& !over ==> final(self)@.table.wf() && final(self)@.table.turn_is_live()
            },
            same_players(final(self)@.table.seats, old(self)@.table.seats),
            final(self).last_action_time == old(self).last_action_time,
    {
        let seat = self.state.current_player;
        match self.state.apply_action(player_id, EngineAction::Fold) {
            Ok(over) => {
                proof {
                    lemma_fold_applied(old(self)@.table, seat as int);
                    lemma_retired(self@.table, seat as int);
                }
                if ejected {
                    self.state.players[seat].status = PlayerStatus::Eliminated;
                    assert(self@.table.seats =~= folded_table(old(self)@.table, ejected).seats);
                }
                Some(over)
            },
            Err(_) => None,
        }
    }

    /// Starts the next hand.
    fn deal_next(&mut self)
        requires
            old(self)@.table.ready(),
        ensures
            exists|first: Seq<Card>, second: Seq<Card>|
                is_shuffled(first) && is_shuffled(second)
                    && final(self)@ == #[trigger] old(self)@.dealt_next(first, second),
            final(self)@.table.wf(),
            final(self)@.table.turn_is_live(),
            same_players(final(self)@.table.seats, old(self)@.table.seats),
            final(self).last_action_time == old(self).last_action_time,
    {
        let ghost before = self.state@;
        self.state.start_new_hand();
        proof {
            let (first, second) = choose|first: Seq<Card>, second: Seq<Card>|
                is_shuffled(first) && is_shuffled(second) && self.state@
                    == #[trigger] before.hands_dealt(first, second);
            assert(self@ == old(self)@.dealt_next(first, second));
        }
    }

    /// Makes the seat on turn fold if the table lets it, with what follows:
    /// the seat is out of the game if it is ejected, the game is over if no
    /// more than one seat is in the game then, and the next hand is started if
    /// the fold has ended the hand. Says whether the seat has folded.
    #[verifier::rlimit(60)]
    fn force_fold(&mut self, player_id: &PlayerId, ejected: bool) -> (folded: bool)
        requires
            old(self).wf(),
            old(self).started,
            player_id@ == old(self)@.table.seats[old(self)@.table.current_player].id,
        ensures
            folded == (old(self)@.table.rejection(player_id@, EngineAction::Fold) is None),
            exists|first: Seq<Card>, second: Seq<Card>|
                is_shuffled(first) && is_shuffled(second)
                    && final(self)@ == #[trigger] old(self)@.fold_forced(ejected, first, second),
            folded ==> final(self)@.table.turn_is_live(),
            final(self).last_action_time == old(self).last_action_time,
            final(self).id == old(self).id,
            final(self).wf(),
    {
        match self.fold_out(player_id, ejected) {
            Some(over) => {
                self.check_forfeit();
                let ghost checked = self@;
                if over {
                    self.deal_next();
                    proof {
                        let (first, second) = choose|first: Seq<Card>, second: Seq<Card>|
                            is_shuffled(first) && is_shuffled(second) && self@
                                == #[trigger] checked.dealt_next(first, second);
                        assert(self@ == old(self)@.fold_forced(ejected, first, second));
                    }
                } else {
                    assert(self@ == old(self)@.fold_forced(ejected, fresh_cards(), fresh_cards()));
                }
                proof {
                    lemma_same_players_distinct(old(self)@.table.seats, self@.table.seats);
                }
                true
            },
            None => {
                assert(self@ == old(self)@.fold_forced(ejected, fresh_cards(), fresh_cards()));
                false
            },
        }
    }

    /// Deals with a turn on which `elapsed` has gone by since the last action,
    /// at the time `now`, and says whether anything was done. Nothing is done
    /// before the game has started, after it is over, or within the time for a
    /// turn. Else the time of the last action is `now`, the timeout is counted
    /// for the seat on turn, and the seat is made to fold. A seat that has
    /// timed out too often is put out of the game for the hand once it has
    /// folded. The turn is on a seat that can act afterwards.
    #[verifier::rlimit(60)]
    pub fn check_timeouts_after(&mut self, elapsed: Option<(u64, u32)>, now: SystemTime) -> (acted:
        bool)
        requires
            old(self).wf(),
        ensures
            acted == (old(self).started && !old(self).game_finished && timed_out(elapsed)),
            timed_or_same(old(self)@, final(self)@),
            final(self).id == old(self).id,
            !acted ==> final(self)@ == old(self)@,
            acted ==> exists|first: Seq<Card>, second: Seq<Card>|
                is_shuffled(first) && is_shuffled(second)
                    && final(self)@ == #[trigger] old(self)@.timeout_outcome(first, second),
            final(self).last_action_time == if acted {
                now
            } else {
                old(self).last_action_time
            },
            acted && old(self)@.table.rejection(
                old(self)@.table.seats[old(self)@.table.current_player].id,
                EngineAction::Fold,
            ) is None ==> final(self)@.table.turn_is_live(),
            final(self).wf(),
    {
        if !self.started || self.game_finished {
            return false;
        }
        let late = match elapsed {
            Some(e) => e.0 > TURN_TIMEOUT_SECS || (e.0 == TURN_TIMEOUT_SECS && e.1 > 0),
            None => false,
        };
        if !late {
            return false;
        }
        let seat = self.state.current_player;
        let player_id = self.state.players[seat].id.clone();
        let ejected = self.player_timeout_strikes[seat] >= MAX_STRIKES - 1;
        assert(ejected == self@.ejects());
        self.strike();
        self.last_action_time = now;
        let ghost struck = self@;
        self.force_fold(&player_id, ejected);
        proof {
            let (first, second) = choose|first: Seq<Card>, second: Seq<Card>|
                is_shuffled(first) && is_shuffled(second) && self@ == #[trigger] struck.fold_forced(
                    ejected,
                    first,
                    second,
                );
            assert(self@ == old(self)@.timeout_outcome(first, second));
        }
        true
    }

    /// Looks at the clock and deals with a turn that has taken too long. Says
    /// whether anything was done.
    pub fn check_timeouts(&mut self) -> (acted: bool)
        requires
            old(self).wf(),
        ensures
            timed_or_same(old(self)@, final(self)@),
            final(self).id == old(self).id,
            !acted ==> final(self)@ == old(self)@
                && final(self).last_action_time == old(self).last_action_time,
            acted ==> old(self).started && !old(self).game_finished,
            final(self).wf(),
    {
        let elapsed = time_elapsed(&self.last_action_time);
        self.check_timeouts_after(elapsed, time_now())
    }
}

impl GameRoom {
    /// How an action is written in the room's log.
    fn describe(&self, action: &EngineAction) -> (text: String)
        ensures
            text@ == self@.action_text(*action),
    {
        match action {
            EngineAction::Fold => String::from_str("FOLD"),
            EngineAction::Check => String::from_str("CHECK"),
            EngineAction::Call => {
                let mut text = String::from_str("CALL (");
                text.append(decimal_string(self.state.current_bet as u64).as_str());
                text.append(")");
                text
            },
            EngineAction::Raise(amount) => {
                let mut text = String::from_str("RAISE (");
                text.append(decimal_string(*amount as u64).as_str());
                text.append(")");
                text
            },
            EngineAction::AllIn => String::from_str("ALL-IN"),
        }
    }

    /// Writes the action that the player asks for to the log.
    fn announce(&mut self, player_id: &PlayerId, action: &EngineAction)
        requires
            old(self).wf(),
        ensures
            final(self)@ == old(self)@.announced(player_id@, *action),
            final(self).state == old(self).state,
            final(self).last_action_time == old(self).last_action_time,
            final(self).wf(),
            final(self).started == old(self).started,
    {
        let player_name = match self.player_name(player_id) {
            Some(name) => name,
            None => player_id.clone(),
        };
        let mut entry = String::from_str("[");
        entry.append(phase_to_string(&self.state.phase).as_str());
        entry.append("] ");
        entry.append(player_name.as_str());
        entry.append(" -> ");
        entry.append(self.describe(action).as_str());
        self.action_log.push(entry);
        assert(self@.log =~= old(self)@.announced(player_id@, *action).log);
    }

    /// Notes the winner of the showdown as the last hand, with its cards and
    /// `amount` as what was played for.
    fn note_hand(&mut self, amount: u32)
        requires
            old(self)@.table.community_cards.len() == 5,
            forall|i: int|
                0 <= i < old(self)@.table.seats.len()
                    ==> (#[trigger] old(self)@.table.seats[i]).hole_cards.len() <= 2,
        ensures
            final(self)@ == old(self)@.hand_noted(amount as int),
            final(self).state == old(self).state,
            final(self).last_action_time == old(self).last_action_time,
    {
        if let Some(winner) = self.state.find_showdown_winner() {
            self.last_hand_winner = Some(self.state.players[winner].id.clone());
            self.last_hand_amount = Some(amount);
            self.last_hand_description = Some(String::from_str("Main gagnante"));
            self.last_hand_cards = Some(cards_to_strings(&self.state.players[winner].hole_cards));
        }
    }

    /// Ends the game if one seat alone has chips.
    fn check_holders(&mut self)
        ensures
            final(self)@ == old(self)@.holders_checked(),
            final(self).state == old(self).state,
            final(self).last_action_time == old(self).last_action_time,
    {
        if self.seats_with_chips() == 1 {
            if let Some(winner) = self.first_seat_with_chips() {
                self.game_finished = true;
                self.winner_id = Some(self.state.players[winner].id.clone());
            }
        }
    }

    /// Forgets the timeouts of the seat and, if asked for, notes the showdown
    /// as the last hand.
    fn record(&mut self, seat: usize, noting: bool, pot: u32)
        requires
            seat < old(self).player_timeout_strikes@.len(),
            noting ==> old(self)@.table.cards_fit() && old(self)@.table.phase
                == GamePhase::Showdown,
        ensures
            final(self)@ == old(self)@.recorded(seat as int, noting, pot as int),
            final(self).state == old(self).state,
            final(self).last_action_time == old(self).last_action_time,
    {
        self.player_timeout_strikes[seat] = 0;
        assert(self@.strikes =~= old(self)@.strikes.update(seat as int, 0));
        if noting {
            self.note_hand(pot);
            self.action_log.push(String::from_str("[SHOWDOWN] Nouveau tour commence"));
            assert(self@.log =~= old(self)@.recorded(seat as int, noting, pot as int).log);
        }
    }

    /// Does what follows an action that the table has taken: forgets the
    /// timeouts of the seat, notes the showdown if asked for, starts the next
    /// hand if the action has ended the hand, and ends the game if one seat
    /// alone has chips.
    fn follow(&mut self, seat: usize, noting: bool, pot: u32, over: bool)
        requires
            seat < old(self).player_timeout_strikes@.len(),
            noting ==> old(self)@.table.cards_fit() && old(self)@.table.phase
                == GamePhase::Showdown,
            old(self)@.table.ready(),
            !over ==> old(self)@.table.wf(),
        ensures
            exists|first: Seq<Card>, second: Seq<Card>|
                is_shuffled(first) && is_shuffled(second)
                    && final(self)@
                    == #[trigger] old(self)@.followed(seat as int, noting, pot as int, over,
                        first, second),
            final(self)@.table.wf(),
            same_players(final(self)@.table.seats, old(self)@.table.seats),
            final(self).last_action_time == old(self).last_action_time,
            final(self)@.names == old(self)@.names,
            final(self)@.kinds == old(self)@.kinds,
            final(self)@.strikes.len() == old(self)@.strikes.len(),
            final(self).started == old(self).started,
    {
        self.record(seat, noting, pot);
        let ghost recorded = self@;
        if over {
            self.deal_next();
            let ghost dealt = self@;
            self.check_holders();
            proof {
                let (first, second) = choose|first: Seq<Card>, second: Seq<Card>|
                    is_shuffled(first) && is_shuffled(second) && dealt
                        == #[trigger] recorded.dealt_next(first, second);
                assert(self@ == old(self)@.followed(
                    seat as int,
                    noting,
                    pot as int,
                    over,
                    first,
                    second,
                ));
            }
        } else {
            self.check_holders();
            assert(self@ == old(self)@.followed(
                seat as int,
                noting,
                pot as int,
                over,
                fresh_cards(),
                fresh_cards(),
            ));
        }
    }

    /// Has the table take the action at the time `now`, and does what follows
    /// if it takes it; else says why it does not, and leaves the room as it is.
    fn act(&mut self, player_id: &PlayerId, action: EngineAction, now: SystemTime) -> (result:
        Result<(), String>)
        requires
            old(self).wf(),
            old(self).started,
        ensures
            final(self).wf(),
            match result {
                Err(reason) => old(self)@.refusal(player_id@, action) == Some(reason@)
                    && final(self)@ == old(self)@
                    && final(self).last_action_time == old(self).last_action_time,
                Ok(_) => old(self)@.refusal(player_id@, action) is None
                    && final(self).last_action_time == now
                    && exists|first: Seq<Card>, second: Seq<Card>|
                    is_shuffled(first) && is_shuffled(second)
                        && final(self)@ == #[trigger] old(self)@.taken(action, first, second),
            },
            final(self)@.table.wf(),
            same_players(final(self)@.table.seats, old(self)@.table.seats),
    {
        let pot_before_action = self.state.pot;
        let was_river_phase = self.state.phase == GamePhase::River;
        let seat = self.state.current_player;
        match self.state.apply_action(player_id, action) {
            Ok(over) => {
                self.last_action_time = now;
                let noting = was_river_phase && self.state.phase == GamePhase::Showdown;
                let ghost applied = self@;
                self.follow(seat, noting, pot_before_action, over);
                proof {
                    let (first, second) = choose|first: Seq<Card>, second: Seq<Card>|
                        is_shuffled(first) && is_shuffled(second) && self@
                            == #[trigger] applied.followed(
                            seat as int,
                            noting,
                            pot_before_action as int,
                            over,
                            first,
                            second,
                        );
                    assert(self@ == old(self)@.taken(action, first, second));
                    lemma_same_players_distinct(old(self)@.table.seats, self@.table.seats);
                }
                Ok(())
            },
            Err(reason) => Err(reason),
        }
    }

    /// Takes the action that the player `player_id` asks for at the time
    /// `now`, unless the game has not started or is over. The answer says
    /// whether the table took the action, and why not. The time of the last
    /// action is `now` if it did, and as before if not.
    #[verifier::rlimit(60)]
    pub fn submit_at(&mut self, player_id: &PlayerId, action: PlayerAction, now: SystemTime)
        -> (result:
        Result<SubmitActionResponse, String>)
        requires
            old(self).wf(),
        ensures
            room_answered(old(self)@, final(self)@, player_id@, engine_action(action), result),
            final(self).last_action_time == if result matches Ok(answer) && answer.success {
                now
            } else {
                old(self).last_action_time
            },
            final(self).wf(),
    {
        if !self.started {
            return Err(String::from_str("La partie n'a pas encore commencé"));
        }
        if self.game_finished {
            return Err(String::from_str("La partie est terminée"));
        }
        let engine_action = EngineAction::from(action);
        let ghost fresh = fresh_cards();
        self.announce(player_id, &engine_action);
        let ghost said = self@;
        match self.act(player_id, engine_action, now) {
            Ok(_) => {
                proof {
                    let (first, second) = choose|first: Seq<Card>, second: Seq<Card>|
                        is_shuffled(first) && is_shuffled(second) && self@ == #[trigger] said.taken(
                            engine_action,
                            first,
                            second,
                        );
                    assert(self@ == old(self)@.submitted(player_id@, engine_action, first, second));
                }
                Ok(SubmitActionResponse { success: true, error: None })
            },
            Err(reason) => {
                assert(self@ == old(self)@.submitted(player_id@, engine_action, fresh, fresh));
                Ok(SubmitActionResponse { success: false, error: Some(reason) })
            },
        }
    }

    /// Takes the action that the player `player_id` asks for, unless the game
    /// has not started or is over. The answer says whether the table took the
    /// action, and why not.
    pub fn submit(&mut self, player_id: &PlayerId, action: PlayerAction) -> (result: Result<
        SubmitActionResponse,
        String,
    >)
        requires
            old(self).wf(),
        ensures
            room_answered(old(self)@, final(self)@, player_id@, engine_action(action), result),
            !(result matches Ok(answer) && answer.success) ==> final(self).last_action_time
                == old(self).last_action_time,
            final(self).wf(),
    {
        self.submit_at(player_id, action, time_now())
    }
}

/// A timeout that the table lets fold takes the seat out of the hand and
/// moves the turn on: the count of the seat is one higher; while the hand goes
/// on the seat is folded, or out of the game if it has timed out too often;
/// and the turn is on a seat that can act, unless the table rests at the
/// showdown.
pub proof fn lemma_timeout_moves_on(room: RoomView, first: Seq<Card>, second: Seq<Card>)
    requires
        room.wf(),
        room.started,
        is_shuffled(first),
        is_shuffled(second),
        room.table.rejection(
            room.table.seats[room.table.current_player].id,
            EngineAction::Fold,
        ) is None,
    ensures
        room.timeout_outcome(first, second).strikes[room.table.current_player]
            == room.strikes_now(),
        room.timeout_outcome(first, second).table.turn_is_live(),
        !room.table.action_ends_hand(room.table.current_player, EngineAction::Fold)
            ==> room.timeout_outcome(first, second).table.seats[room.table.current_player].status
            == if room.ejects() {
            PlayerStatus::Eliminated
        } else {
            PlayerStatus::Folded
        },
{
    let seat = room.table.current_player;
    let folded = room.table.action_applied(seat, EngineAction::Fold);
    let left = folded_table(room.table, room.ejects());
    lemma_fold_applied(room.table, seat);
    lemma_action_applied_live(room.table, seat, EngineAction::Fold);
    lemma_acted_on(room.table, seat, EngineAction::Fold);
    lemma_phases_run(room.table.acted_on(seat, EngineAction::Fold));
    lemma_won_early(room.table.acted_on(seat, EngineAction::Fold));
    lemma_next_active_within_range(
        room.table.acted_on(seat, EngineAction::Fold).seats,
        room.table.current_player,
        room.table.seats.len(),
    );
    lemma_retired(folded, seat);
    if room.table.action_ends_hand(seat, EngineAction::Fold) {
        lemma_hands_dealt_live(left, first, second);
    }
}

/// Seats that keep their players keep them apart: no player has two seats
/// after if none had before.
pub proof fn lemma_same_players_distinct(before: Seq<SeatView>, after: Seq<SeatView>)
    requires
        same_players(after, before),
        forall|i: int, j: int|
            0 <= i < j < before.len() ==> (#[trigger] before[i]).id != (#[trigger] before[j]).id,
    ensures
        forall|i: int, j: int|
            0 <= i < j < after.len() ==> (#[trigger] after[i]).id != (#[trigger] after[j]).id,
{
    assert forall|i: int, j: int| 0 <= i < j < after.len() implies (#[trigger] after[i]).id != (
    #[trigger] after[j]).id by {
        assert(before[i].id != before[j].id);
    }
}

// ---------------------------------------------------------------------------
// The manager
// ---------------------------------------------------------------------------
/// The owner of all rooms. Whatever is done to a room is done through it.
pub struct GameManager {
    games: Vec<GameRoom>,
}

/// The rooms as the rules see them.
pub open spec fn room_views(rooms: Seq<GameRoom>) -> Seq<RoomView> {
    rooms.map_values(|room: GameRoom| room@)
}

/// The position, from `from` on, of the room of the game `id`.
pub open spec fn room_of(rooms: Seq<RoomView>, id: GameId, from: int) -> Option<int>
    decreases rooms.len() - from,
{
    if from >= rooms.len() {
        None
    } else if rooms[from].id == id {
        Some(from)
    } else {
        room_of(rooms, id, from + 1)
    }
}

/// The rooms are in order, and no two of them are of one game.
pub open spec fn rooms_ok(rooms: Seq<RoomView>) -> bool {
    &&& forall|i: int| 0 <= i < rooms.len() ==> (#[trigger] rooms[i]).wf()
    &&& forall|i: int, j: int|
        0 <= i < j < rooms.len() ==> (#[trigger] rooms[i]).id != (#[trigger] rooms[j]).id
}

/// The rooms with `room` in the place of the room of the same game, or as a
/// new room at the end.
pub open spec fn rooms_with(rooms: Seq<RoomView>, room: RoomView) -> Seq<RoomView> {
    match room_of(rooms, room.id, 0) {
        Some(position) => rooms.update(position, room),
        None => rooms.push(room),
    }
}

/// The identity that a player called `name` gets with the random number
/// `number`: the name, an underscore, and the number written as an identifier.
pub open spec fn player_id_text(name: Seq<char>, number: u128) -> Seq<char> {
    name + "_"@ + uuid_text(number)
}

/// What comes of a request to join for the identity `player`: the room is
/// left as it was and the answer says why, if the identity cannot take a seat;
/// else the room has the new seat, and the answer names the identity and the
/// position of the seat, or says that no token was issued.
#[verifier::opaque]
pub open spec fn join_answered(
    before: RoomView,
    after: RoomView,
    player: Seq<char>,
    req: JoinGameRequest,
    game_id: GameId,
    result: Result<JoinGameResponse, String>,
) -> bool {
    match before.join_rejection(player) {
        Some(refused) => after == before && (result matches Err(reason) && reason@ == refused),
        None => after == before.joined(player, req.bot_name@, req.player_type) && match result {
            Ok(answer) => answer.player_id@ == player && answer.game_id == game_id
                && answer.position == before.table.seats.len(),
            Err(reason) => exists|why: Seq<char>|
                reason@ == #[trigger] ("Erreur de génération de token: "@ + why),
        },
    }
}

/// A request to join that the room refuses is answered with the reason.
proof fn lemma_join_refused(
    before: RoomView,
    player: Seq<char>,
    req: JoinGameRequest,
    game_id: GameId,
    reason: String,
)
    requires
        before.join_rejection(player) == Some(reason@),
    ensures
        join_answered(before, before, player, req, game_id, Err(reason)),
{
    reveal(join_answered);
}

/// A request to join that the room takes is answered with the seat, or with
/// the reason for which no token was issued.
proof fn lemma_join_seated(
    before: RoomView,
    player: Seq<char>,
    req: JoinGameRequest,
    game_id: GameId,
    result: Result<JoinGameResponse, String>,
    why: Seq<char>,
)
    requires
        before.join_rejection(player) is None,
        match result {
            Ok(answer) => answer.player_id@ == player && answer.game_id == game_id
                && answer.position == before.table.seats.len(),
            Err(reason) => reason@ == "Erreur de génération de token: "@ + why,
        },
    ensures
        join_answered(
            before,
            before.joined(player, req.bot_name@, req.player_type),
            player,
            req,
            game_id,
            result,
        ),
{
    reveal(join_answered);
}

/// The room that is found is of the game looked for, and no room before it is;
/// if none is found, no room is.
pub proof fn lemma_room_of(rooms: Seq<RoomView>, id: GameId, from: int)
    requires
        0 <= from,
    ensures
        match room_of(rooms, id, from) {
            Some(position) => from <= position < rooms.len() && rooms[position].id == id,
            None => forall|i: int| from <= i < rooms.len() ==> (#[trigger] rooms[i]).id != id,
        },
    decreases rooms.len() - from,
{
    if from < rooms.len() && rooms[from].id != id {
        lemma_room_of(rooms, id, from + 1);
    }
}

impl View for GameManager {
    type V = Seq<RoomView>;

    closed spec fn view(&self) -> Seq<RoomView> {
        room_views(self.games@)
    }
}

impl GameManager {
    #[verifier::type_invariant]
    closed spec fn in_order(&self) -> bool {
        rooms_ok(room_views(self.games@))
    }

    /// A manager without rooms.
    pub fn new() -> (manager: GameManager)
        ensures
            manager@ == Seq::<RoomView>::empty(),
    {
        let manager = GameManager { games: Vec::new() };
        assert(manager@ =~= Seq::<RoomView>::empty());
        manager
    }

    /// Hands out the rooms and leaves the manager without any.
    fn take_games(&mut self) -> (games: Vec<GameRoom>)
        ensures
            room_views(games@) == old(self)@,
            rooms_ok(room_views(games@)),
    {
        proof {
            use_type_invariant(&*self);
        }
        let mut games: Vec<GameRoom> = Vec::new();
        assert(rooms_ok(room_views(games@)));
        std::mem::swap(&mut games, &mut self.games);
        games
    }

    /// The position of the room of the game among `games`.
    fn find_game(games: &Vec<GameRoom>, game_id: GameId) -> (position: Option<usize>)
        ensures
            room_of(room_views(games@), game_id, 0) == match position {
                Some(i) => Some(i as int),
                None => None,
            },
            position matches Some(i) ==> i < games@.len() && games@[i as int].id == game_id,
    {
        let mut i: usize = 0;
        while i < games.len()
            invariant
                i <= games@.len(),
                room_of(room_views(games@), game_id, 0) == room_of(
                    room_views(games@),
                    game_id,
                    i as int,
                ),
            decreases games@.len() - i,
        {
            if games[i].id == game_id {
                return Some(i);
            }
            i += 1;
        }
        None
    }

    /// Makes a room for a new game with the identity `game_id`. Should there
    /// be a room of that game already, the new one takes its place.
    pub fn create_game_with_id(&mut self, game_id: GameId, req: CreateGameRequest) -> (created:
        CreateGameResponse)
        ensures
            created.game_id == game_id,
            created.name@ == req.name@,
            final(self)@ == rooms_with(
                old(self)@,
                RoomView::fresh(
                    game_id,
                    req.name@,
                    req.max_players as int,
                    req.starting_chips as int,
                    req.small_blind as int,
                    req.big_blind as int,
                ),
            ),
            rooms_ok(final(self)@),
    {
        let room = GameRoom::new(
            game_id,
            req.name.clone(),
            req.max_players,
            req.starting_chips,
            req.small_blind,
            req.big_blind,
        );
        let mut games = self.take_games();
        proof {
            lemma_room_of(room_views(games@), game_id, 0);
        }
        let ghost before = room_views(games@);
        let ghost fresh = room@;
        match Self::find_game(&games, game_id) {
            Some(position) => {
                games[position] = room;
                assert(room_views(games@) =~= before.update(position as int, fresh));
            },
            None => {
                games.push(room);
                assert(room_views(games@) =~= before.push(fresh));
            },
        }
        proof {
            let after = room_views(games@);
            assert forall|i: int, j: int| 0 <= i < j < after.len() implies (#[trigger] after[i]).id
                != (#[trigger] after[j]).id by {
                if i < before.len() && j < before.len() {
                    assert(before[i].id != before[j].id);
                }
            }
            assert forall|i: int| 0 <= i < after.len() implies (#[trigger] after[i]).wf() by {
                if i < before.len() {
                    assert(before[i].wf());
                }
            }
        }
        self.games = games;
        CreateGameResponse { game_id, name: req.name }
    }

    /// Makes a room for a new game, with a random identity. A room seats no
    /// more than twenty-two players, whatever it is made for: the deck of
    /// fifty-two cards must serve two cards each, five for the board and three
    /// to burn.
    pub fn create_game(&mut self, req: CreateGameRequest) -> (result: Result<
        CreateGameResponse,
        String,
    >)
        ensures
            result matches Ok(created) && created.name@ == req.name@ && final(self)@ == rooms_with(
                old(self)@,
                RoomView::fresh(
                    created.game_id,
                    req.name@,
                    req.max_players as int,
                    req.starting_chips as int,
                    req.small_blind as int,
                    req.big_blind as int,
                ),
            ),
            rooms_ok(final(self)@),
    {
        let game_id = random_uuid();
        Ok(self.create_game_with_id(game_id, req))
    }

    /// Gives the player `player_id` a seat in the game, and returns its
    /// position; or refuses, and leaves the rooms as they are.
    pub fn join_game_as(
        &mut self,
        game_id: GameId,
        player_id: PlayerId,
        name: String,
        player_type: PlayerType,
    ) -> (result: Result<usize, String>)
        ensures
            match room_of(old(self)@, game_id, 0) {
                None => result matches Err(reason) && reason@ == "Partie non trouvée"@
                    && final(self)@ == old(self)@,
                Some(at) => match result {
                    Err(reason) => old(self)@[at].join_rejection(player_id@) == Some(reason@)
                        && final(self)@ == old(self)@,
                    Ok(position) => old(self)@[at].join_rejection(player_id@) is None && position
                        == old(self)@[at].table.seats.len() && final(self)@ == old(self)@.update(
                        at,
                        old(self)@[at].joined(player_id@, name@, player_type),
                    ),
                },
            },
            rooms_ok(final(self)@),
    {
        let mut games = self.take_games();
        proof {
            lemma_room_of(room_views(games@), game_id, 0);
        }
        let ghost before = room_views(games@);
        let result = match Self::find_game(&games, game_id) {
            None => Err(String::from_str("Partie non trouvée")),
            Some(at) => {
                assert(before[at as int].wf());
                let joined = games[at].add_player(player_id, name, player_type);
                assert(room_views(games@) =~= before.update(at as int, games@[at as int]@));
                proof {
                    lemma_rooms_update(before, at as int, games@[at as int]@);
                }
                joined
            },
        };
        self.games = games;
        result
    }

    /// Gives a player a seat in the game, under a new identity made of the
    /// name asked for and a random number, and issues the token for that
    /// identity and the game. The answer holds the identity, the position of
    /// the seat and the token. Should no token be issued, the player keeps the
    /// seat, and the answer says why there is none.
    pub fn join_game(&mut self, game_id: GameId, req: JoinGameRequest) -> (result: Result<
        JoinGameResponse,
        String,
    >)
        ensures
            match room_of(old(self)@, game_id, 0) {
                None => (result matches Err(reason) && reason@ == "Partie non trouvée"@)
                    && final(self)@ == old(self)@,
                Some(at) => final(self)@.len() == old(self)@.len() && exists|number: u128|
                    join_answered(
                        old(self)@[at],
                        final(self)@[at],
                        #[trigger] player_id_text(req.bot_name@, number),
                        req,
                        game_id,
                        result,
                    ) && final(self)@ == old(self)@.update(at, final(self)@[at]),
            },
            result matches Ok(answer) ==> exists|now: i64|
                Ok::<Seq<char>, Seq<char>>(answer.auth_token@) == #[trigger] token_at(
                    answer.player_id@,
                    uuid_text(game_id),
                    now,
                ),
            rooms_ok(final(self)@),
    {
        let number = random_uuid();
        let mut player_id = joined(req.bot_name.as_str(), "_");
        player_id.append(uuid_string(number).as_str());
        let game = game_id_string(game_id);
        let ghost player = player_id@;
        let position = match self.join_game_as(
            game_id,
            player_id.clone(),
            req.bot_name,
            req.player_type,
        ) {
            Ok(position) => position,
            Err(reason) => {
                proof {
                    lemma_room_of(old(self)@, game_id, 0);
                    if let Some(at) = room_of(old(self)@, game_id, 0) {
                        lemma_join_refused(old(self)@[at], player, req, game_id, reason);
                        assert(player == player_id_text(req.bot_name@, number));
                        assert(self@ =~= old(self)@.update(at, self@[at]));
                    }
                }
                return Err(reason);
            },
        };
        let issued = create_token(player_id.as_str(), game.as_str());
        let ghost mut why: Seq<char> = Seq::empty();
        let result = match issued {
            Ok(auth_token) => Ok(JoinGameResponse { player_id, game_id, position, auth_token }),
            Err(text) => {
                let mut reason = String::from_str("Erreur de génération de token: ");
                reason.append(text.as_str());
                proof {
                    why = text@;
                }
                Err(reason)
            },
        };
        proof {
            lemma_room_of(old(self)@, game_id, 0);
            let at = room_of(old(self)@, game_id, 0)->0;
            lemma_join_seated(old(self)@[at], player, req, game_id, result, why);
            assert(player == player_id_text(req.bot_name@, number));
        }
        result
    }
}

/// What the rooms are after the sweep for timeouts: each room is as it was,
/// or as a timeout of the seat on turn leaves it; a room whose game has not
/// started or is over is as it was.
pub open spec fn swept(before: Seq<RoomView>, after: Seq<RoomView>) -> bool {
    &&& after.len() == before.len()
    &&& forall|i: int| 0 <= i < before.len() ==> timed_or_same(before[i], #[trigger] after[i])
}

/// A room in order has the identity it had before whatever was done to it.
pub open spec fn same_game(before: RoomView, after: RoomView) -> bool {
    after.id == before.id && after.wf()
}

impl GameManager {
    /// Takes the action that the holder of a token asks for in the game, given
    /// what the token was found to say, or why it was found bad. The token
    /// must be for this game.
    pub fn submit_action_as(
        &mut self,
        game_id: GameId,
        claims: Result<Claims, String>,
        action: PlayerAction,
    ) -> (result: Result<SubmitActionResponse, String>)
        ensures
            submit_answered(
                old(self)@,
                final(self)@,
                game_id,
                claims_view(claims),
                engine_action(action),
                result,
            ),
            rooms_ok(final(self)@),
    {
        let said = match claims {
            Ok(said) => said,
            Err(why) => {
                proof {
                    use_type_invariant(&*self);
                }
                return Err(why);
            },
        };
        if said.game_id != game_id_string(game_id) {
            proof {
                use_type_invariant(&*self);
            }
            return Err(String::from_str("Token invalide pour cette partie"));
        }
        let mut games = self.take_games();
        proof {
            lemma_room_of(room_views(games@), game_id, 0);
        }
        let ghost before = room_views(games@);
        let result = match Self::find_game(&games, game_id) {
            None => Err(String::from_str("Partie non trouvée")),
            Some(at) => {
                assert(before[at as int].wf());
                let answer = games[at].submit(&said.player_id, action);
                assert(room_views(games@) =~= before.update(at as int, games@[at as int]@));
                proof {
                    lemma_rooms_update(before, at as int, games@[at as int]@);
                }
                answer
            },
        };
        self.games = games;
        result
    }

    /// Takes the action that the holder of a token asks for in the game. The
    /// token is checked first: it must be good, and for this game.
    pub fn submit_action(&mut self, game_id: GameId, req: SubmitActionRequest) -> (result: Result<
        SubmitActionResponse,
        String,
    >)
        ensures
            exists|read: Result<TokenFields, TokenFault>|
                submit_answered(
                    old(self)@,
                    final(self)@,
                    game_id,
                    #[trigger] claims_read(read),
                    engine_action(req.action),
                    result,
                ),
            rooms_ok(final(self)@),
    {
        let claims = verify_token(req.auth_token.as_str());
        self.submit_action_as(game_id, claims, req.action)
    }

    /// Starts the game and deals the first hand, or refuses and leaves the
    /// rooms as they are.
    pub fn start_game(&mut self, game_id: GameId) -> (result: Result<(), String>)
        ensures
            match room_of(old(self)@, game_id, 0) {
                None => (result matches Err(reason) && reason@ == "Partie non trouvée"@)
                    && final(self)@ == old(self)@,
                Some(at) => final(self)@ == old(self)@.update(at, final(self)@[at])
                    && match result {
                    Err(reason) => old(self)@[at].start_rejection() == Some(reason@)
                        && final(self)@[at] == old(self)@[at],
                    Ok(_) => old(self)@[at].start_rejection() is None && exists|
                        first: Seq<Card>,
                        second: Seq<Card>,
                    |
                        is_shuffled(first) && is_shuffled(second) && final(self)@[at]
                            == #[trigger] old(self)@[at].begun(first, second),
                },
            },
            rooms_ok(final(self)@),
    {
        let mut games = self.take_games();
        proof {
            lemma_room_of(room_views(games@), game_id, 0);
        }
        let ghost before = room_views(games@);
        let result = match Self::find_game(&games, game_id) {
            None => Err(String::from_str("Partie non trouvée")),
            Some(at) => {
                assert(before[at as int].wf());
                let started = games[at].start_game();
                assert(room_views(games@) =~= before.update(at as int, games@[at as int]@));
                proof {
                    lemma_rooms_update(before, at as int, games@[at as int]@);
                }
                started
            },
        };
        self.games = games;
        result
    }

    /// What the player `player_id` is shown of the game.
    pub fn get_game_state(&self, game_id: GameId, player_id: &PlayerId) -> (result: Result<
        GameStateResponse,
        String,
    >)
        ensures
            match room_of(self@, game_id, 0) {
                None => result matches Err(reason) && reason@ == "Partie non trouvée"@,
                Some(at) => result matches Ok(shown) && shown@ == self@[at].shown_to(player_id@),
            },
    {
        proof {
            use_type_invariant(self);
            lemma_room_of(self@, game_id, 0);
        }
        match Self::find_game(&self.games, game_id) {
            None => Err(String::from_str("Partie non trouvée")),
            Some(at) => {
                assert(self@[at as int].wf());
                Ok(self.games[at].get_state_for_player(player_id))
            },
        }
    }

    /// All games in a few words each, in the order in which they were made.
    pub fn list_games(&self) -> (list: GameListResponse)
        ensures
            list.games@.len() == self@.len(),
            forall|i: int|
                0 <= i < self@.len() ==> (#[trigger] list.games@[i])@ == self@[i].summary(),
    {
        let mut games: Vec<GameSummary> = Vec::new();
        let mut i: usize = 0;
        while i < self.games.len()
            invariant
                i <= self.games@.len(),
                games@.len() == i,
                forall|k: int| 0 <= k < i ==> (#[trigger] games@[k])@ == self@[k].summary(),
            decreases self.games@.len() - i,
        {
            games.push(self.games[i].get_summary());
            i += 1;
        }
        GameListResponse { games }
    }

    /// The room of the game, if there is one.
    pub fn get_game(&self, game_id: GameId) -> (room: Option<&GameRoom>)
        ensures
            match room_of(self@, game_id, 0) {
                None => room is None,
                Some(at) => room matches Some(found) && found@ == self@[at] && found.wf(),
            },
    {
        proof {
            use_type_invariant(self);
            lemma_room_of(self@, game_id, 0);
        }
        match Self::find_game(&self.games, game_id) {
            None => None,
            Some(at) => {
                assert(self@[at as int].wf());
                Some(&self.games[at])
            },
        }
    }

    /// Looks at the clock for every game and deals with the turns that have
    /// taken too long.
    pub fn run_maintenance(&mut self)
        ensures
            swept(old(self)@, final(self)@),
            rooms_ok(final(self)@),
    {
        let mut games = self.take_games();
        let ghost before = room_views(games@);
        let mut i: usize = 0;
        while i < games.len()
            invariant
                i <= games@.len(),
                games@.len() == before.len(),
                rooms_ok(before),
                forall|k: int|
                    i <= k < games@.len() ==> (#[trigger] room_views(games@)[k]) == before[k],
                forall|k: int|
                    0 <= k < games@.len() ==> same_game(
                        before[k],
                        #[trigger] room_views(games@)[k],
                    ),
                forall|k: int|
                    0 <= k < i ==> timed_or_same(before[k], #[trigger] room_views(games@)[k]),
            decreases games@.len() - i,
        {
            let ghost rooms = room_views(games@);
            assert(rooms[i as int] == before[i as int]);
            assert(before[i as int].wf());
            games[i].check_timeouts();
            proof {
                let after = room_views(games@);
                assert(after =~= rooms.update(i as int, games@[i as int]@));
                assert forall|k: int| 0 <= k < games@.len() implies same_game(
                    before[k],
                    #[trigger] after[k],
                ) by {
                    if k != i {
                        assert(same_game(before[k], rooms[k]));
                    }
                }
                assert forall|k: int| 0 <= k < i + 1 implies timed_or_same(
                    before[k],
                    #[trigger] after[k],
                ) by {
                    if k < i {
                        assert(after[k] == rooms[k]);
                    }
                }
            }
            i += 1;
        }
        proof {
            let after = room_views(games@);
            assert forall|k: int| i <= k < games@.len() implies timed_or_same(
                before[k],
                #[trigger] after[k],
            ) by {}
            assert forall|a: int, b: int| 0 <= a < b < after.len() implies (#[trigger] after[a]).id
                != (#[trigger] after[b]).id by {
                assert(same_game(before[a], after[a]));
                assert(same_game(before[b], after[b]));
                assert(before[a].id != before[b].id);
            }
            assert forall|k: int| 0 <= k < after.len() implies (#[trigger] after[k]).wf() by {
                assert(same_game(before[k], after[k]));
            }
        }
        self.games = games;
    }
}

impl Default for GameManager {
    fn default() -> (manager: GameManager)
        ensures
            manager@ == Seq::<RoomView>::empty(),
    {
        GameManager::new()
    }
}

/// How a room answers the action that the player `id` asks for: it refuses
/// and stays as it was, or takes the action and says whether the table took
/// it.
pub open spec fn room_answered(
    before: RoomView,
    after: RoomView,
    id: Seq<char>,
    action: EngineAction,
    result: Result<SubmitActionResponse, String>,
) -> bool {
    match result {
        Err(reason) => before.submit_rejection() == Some(reason@) && after == before,
        Ok(answer) => {
            &&& before.submit_rejection() is None
            &&& answer.success == (before.refusal(id, action) is None)
            &&& text_of(answer.error) == before.refusal(id, action)
            &&& exists|first: Seq<Card>, second: Seq<Card>|
                is_shuffled(first) && is_shuffled(second) && after == #[trigger] before.submitted(
                    id,
                    action,
                    first,
                    second,
                )
        },
    }
}

/// How the manager answers the action asked for under a token that was found
/// to say `claims`: it hands on why the token is bad; it refuses a token for
/// another game; it knows no such game; or it has the room of the game answer.
/// Only that room can change.
pub open spec fn submit_answered(
    before: Seq<RoomView>,
    after: Seq<RoomView>,
    game_id: GameId,
    claims: Result<ClaimsView, Seq<char>>,
    action: EngineAction,
    result: Result<SubmitActionResponse, String>,
) -> bool {
    match claims {
        Err(why) => (result matches Err(reason) && reason@ == why) && after == before,
        Ok(said) => if said.game_id != uuid_text(game_id) {
            (result matches Err(reason) && reason@ == "Token invalide pour cette partie"@)
                && after == before
        } else {
            match room_of(before, game_id, 0) {
                None => (result matches Err(reason) && reason@ == "Partie non trouvée"@) && after
                    == before,
                Some(at) => after == before.update(at, after[at]) && room_answered(
                    before[at],
                    after[at],
                    said.player_id,
                    action,
                    result,
                ),
            }
        },
    }
}

/// Rooms stay in order when one of them is replaced by a room in order of
/// the same game.
pub proof fn lemma_rooms_update(rooms: Seq<RoomView>, at: int, room: RoomView)
    requires
        rooms_ok(rooms),
        0 <= at < rooms.len(),
        room.wf(),
        room.id == rooms[at].id,
    ensures
        rooms_ok(rooms.update(at, room)),
        forall|id: GameId| room_of(rooms.update(at, room), id, 0) == room_of(rooms, id, 0),
{
    let after = rooms.update(at, room);
    assert forall|i: int| 0 <= i < after.len() implies (#[trigger] after[i]).wf() by {
        if i != at {
            assert(rooms[i].wf());
        }
    }
    assert forall|i: int, j: int| 0 <= i < j < after.len() implies (#[trigger] after[i]).id != (
    #[trigger] after[j]).id by {
        assert(rooms[i].id != rooms[j].id);
    }
    assert forall|id: GameId| room_of(after, id, 0) == room_of(rooms, id, 0) by {
        lemma_room_of_same_ids(rooms, after, id, 0);
    }
}

/// Where a game is found depends on the identities of the rooms alone.
pub proof fn lemma_room_of_same_ids(a: Seq<RoomView>, b: Seq<RoomView>, id: GameId, from: int)
    requires
        0 <= from,
        a.len() == b.len(),
        forall|i: int| 0 <= i < a.len() ==> (#[trigger] a[i]).id == b[i].id,
    ensures
        room_of(a, id, from) == room_of(b, id, from),
    decreases a.len() - from,
{
    if from < a.len() {
        assert(a[from].id == b[from].id);
        if a[from].id != id {
            lemma_room_of_same_ids(a, b, id, from + 1);
        }
    }
}

} // verus!
