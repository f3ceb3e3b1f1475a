//! What goes in and out of the rooms: requests, answers, and how cards and
//! phases are written.

use vstd::prelude::*;
use crate::card::Card;
use crate::game::{texts, GamePhase, PlayerAction as EngineAction};

verus! {

/// The identity of a game.
pub type GameId = u128;

/// The identity of a player.
pub type PlayerId = String;

/// Who plays a seat.
#[derive(Debug, Clone, Copy, PartialEq, Eq, Structural)]
pub enum PlayerType {
    Human,
    Bot,
}

/// A request for a new game.
#[derive(Debug)]
pub struct CreateGameRequest {
    pub name: String,
    pub max_players: usize,
    pub starting_chips: u32,
    pub small_blind: u32,
    pub big_blind: u32,
}

/// The answer to a request for a new game.
#[derive(Debug)]
pub struct CreateGameResponse {
    pub game_id: GameId,
    pub name: String,
}

/// A request to join a game.
#[derive(Debug)]
pub struct JoinGameRequest {
    pub bot_name: String,
    pub player_type: PlayerType,
    pub bot_secret: Option<String>,
}

/// The kind of a player who names none.
pub fn default_player_type() -> (kind: PlayerType)
    ensures
        kind == PlayerType::Bot,
{
    PlayerType::Bot
}

/// The answer to a request to join a game.
#[derive(Debug)]
pub struct JoinGameResponse {
    pub player_id: PlayerId,
    pub game_id: GameId,
    pub position: usize,
    pub auth_token: String,
}

/// An action as a player sends it.
#[derive(Debug, Clone)]
pub enum PlayerAction {
    Fold,
    Check,
    Call,
    Raise { amount: u32 },
    AllIn,
}

/// The action of the table that a sent action stands for.
pub open spec fn engine_action(action: PlayerAction) -> EngineAction {
    match action {
        PlayerAction::Fold => EngineAction::Fold,
        PlayerAction::Check => EngineAction::Check,
        PlayerAction::Call => EngineAction::Call,
        PlayerAction::Raise { amount } => EngineAction::Raise(amount),
        PlayerAction::AllIn => EngineAction::AllIn,
    }
}

impl From<PlayerAction> for EngineAction {
    fn from(action: PlayerAction) -> (engine: EngineAction) {
        match action {
            PlayerAction::Fold => EngineAction::Fold,
            PlayerAction::Check => EngineAction::Check,
            PlayerAction::Call => EngineAction::Call,
            PlayerAction::Raise { amount } => EngineAction::Raise(amount),
            PlayerAction::AllIn => EngineAction::AllIn,
        }
    }
}

impl vstd::std_specs::convert::FromSpecImpl<PlayerAction> for EngineAction {
    open spec fn obeys_from_spec() -> bool {
        true
    }

    open spec fn from_spec(action: PlayerAction) -> EngineAction {
        engine_action(action)
    }
}

/// A sent action with the token that allows it.
#[derive(Debug)]
pub struct SubmitActionRequest {
    pub auth_token: String,
    pub action: PlayerAction,
}

/// The answer to a sent action: whether it was applied, and why not.
#[derive(Debug)]
pub struct SubmitActionResponse {
    pub success: bool,
    pub error: Option<String>,
}

/// What everybody may know of a seat. `cards` are the hole cards, for the
/// player of the seat alone.
#[derive(Debug, Clone)]
pub struct PlayerInfo {
    pub id: PlayerId,
    pub name: String,
    pub chips: u32,
    pub current_bet: u32,
    pub status: String,
    pub player_type: PlayerType,
    pub cards: Option<Vec<String>>,
}

/// A game as one player may see it.
#[derive(Debug)]
pub struct GameStateResponse {
    pub game_id: GameId,
    pub phase: String,
    pub pot: u32,
    pub current_bet: u32,
    pub community_cards: Vec<String>,
    pub players: Vec<PlayerInfo>,
    pub current_player_id: Option<PlayerId>,
    pub your_player_id: Option<PlayerId>,
    pub your_chips: Option<u32>,
    pub your_cards: Option<Vec<String>>,
    pub valid_actions: Vec<String>,
    pub game_finished: bool,
    pub winner_id: Option<PlayerId>,
    pub winner_name: Option<String>,
    pub action_log: Option<Vec<String>>,
    pub last_hand_winner: Option<PlayerId>,
    pub last_hand_winner_name: Option<String>,
    pub last_hand_amount: Option<u32>,
    pub last_hand_description: Option<String>,
    pub last_hand_cards: Option<Vec<String>>,
}

/// The games on offer.
#[derive(Debug)]
pub struct GameListResponse {
    pub games: Vec<GameSummary>,
}

/// A game in a few words.
#[derive(Debug)]
pub struct GameSummary {
    pub game_id: GameId,
    pub name: String,
    pub player_count: usize,
    pub max_players: usize,
    pub phase: String,
    pub pot: u32,
}

/// What happens in a game, for those who follow it.
#[derive(Debug, Clone)]
pub enum GameEvent {
    GameUpdate {
        game_id: GameId,
        phase: String,
        pot: u32,
        community_cards: Vec<String>,
        current_player: Option<String>,
    },
    PlayerAction { game_id: GameId, player_name: String, action: String, amount: Option<u32> },
    PlayerJoined { game_id: GameId, player_name: String },
    GameStarted { game_id: GameId },
    GameEnded { game_id: GameId, winner: String },
}

// ---------------------------------------------------------------------------
// Views
// ---------------------------------------------------------------------------
/// A text that may be missing.
pub open spec fn text_of(text: Option<String>) -> Option<Seq<char>> {
    match text {
        Some(t) => Some(t@),
        None => None,
    }
}

/// Texts that may be missing.
pub open spec fn texts_of(entries: Option<Vec<String>>) -> Option<Seq<Seq<char>>> {
    match entries {
        Some(e) => Some(texts(e@)),
        None => None,
    }
}

/// A number that may be missing.
pub open spec fn amount_of(amount: Option<u32>) -> Option<int> {
    match amount {
        Some(a) => Some(a as int),
        None => None,
    }
}

/// The cards as texts.
pub open spec fn card_texts(cards: Seq<Card>) -> Seq<Seq<char>> {
    cards.map_values(|card: Card| card.text())
}

/// How a phase is written.
pub open spec fn phase_name(phase: GamePhase) -> Seq<char> {
    match phase {
        GamePhase::PreFlop => "preflop"@,
        GamePhase::Flop => "flop"@,
        GamePhase::Turn => "turn"@,
        GamePhase::River => "river"@,
        GamePhase::Showdown => "showdown"@,
    }
}

/// How an action of the table is written in the list of legal actions.
pub open spec fn action_name(action: EngineAction) -> Seq<char> {
    match action {
        EngineAction::Fold => "fold"@,
        EngineAction::Check => "check"@,
        EngineAction::Call => "call"@,
        EngineAction::Raise(_) => "raise"@,
        EngineAction::AllIn => "allin"@,
    }
}

/// A seat as everybody may see it.
pub struct PlayerInfoView {
    pub id: Seq<char>,
    pub name: Seq<char>,
    pub chips: int,
    pub current_bet: int,
    pub status: Seq<char>,
    pub player_type: PlayerType,
    pub cards: Option<Seq<Seq<char>>>,
}

impl View for PlayerInfo {
    type V = PlayerInfoView;

    open spec fn view(&self) -> PlayerInfoView {
        PlayerInfoView {
            id: self.id@,
            name: self.name@,
            chips: self.chips as int,
            current_bet: self.current_bet as int,
            status: self.status@,
            player_type: self.player_type,
            cards: texts_of(self.cards),
        }
    }
}

/// The seats as everybody may see them.
pub open spec fn info_views(infos: Seq<PlayerInfo>) -> Seq<PlayerInfoView> {
    infos.map_values(|info: PlayerInfo| info@)
}

/// A game as one player may see it.
pub struct GameStateView {
    pub game_id: GameId,
    pub phase: Seq<char>,
    pub pot: int,
    pub current_bet: int,
    pub community_cards: Seq<Seq<char>>,
    pub players: Seq<PlayerInfoView>,
    pub current_player_id: Option<Seq<char>>,
    pub your_player_id: Option<Seq<char>>,
    pub your_chips: Option<int>,
    pub your_cards: Option<Seq<Seq<char>>>,
    pub valid_actions: Seq<Seq<char>>,
    pub game_finished: bool,
    pub winner_id: Option<Seq<char>>,
    pub winner_name: Option<Seq<char>>,
    pub action_log: Option<Seq<Seq<char>>>,
    pub last_hand_winner: Option<Seq<char>>,
    pub last_hand_winner_name: Option<Seq<char>>,
    pub last_hand_amount: Option<int>,
    pub last_hand_description: Option<Seq<char>>,
    pub last_hand_cards: Option<Seq<Seq<char>>>,
}

impl View for GameStateResponse {
    type V = GameStateView;

    open spec fn view(&self) -> GameStateView {
        GameStateView {
            game_id: self.game_id,
            phase: self.phase@,
            pot: self.pot as int,
            current_bet: self.current_bet as int,
            community_cards: texts(self.community_cards@),
            players: info_views(self.players@),
            current_player_id: text_of(self.current_player_id),
            your_player_id: text_of(self.your_player_id),
            your_chips: amount_of(self.your_chips),
            your_cards: texts_of(self.your_cards),
            valid_actions: texts(self.valid_actions@),
            game_finished: self.game_finished,
            winner_id: text_of(self.winner_id),
            winner_name: text_of(self.winner_name),
            action_log: texts_of(self.action_log),
            last_hand_winner: text_of(self.last_hand_winner),
            last_hand_winner_name: text_of(self.last_hand_winner_name),
            last_hand_amount: amount_of(self.last_hand_amount),
            last_hand_description: text_of(self.last_hand_description),
            last_hand_cards: texts_of(self.last_hand_cards),
        }
    }
}

/// A game in a few words.
pub struct GameSummaryView {
    pub game_id: GameId,
    pub name: Seq<char>,
    pub player_count: int,
    pub max_players: int,
    pub phase: Seq<char>,
    pub pot: int,
}

impl View for GameSummary {
    type V = GameSummaryView;

    open spec fn view(&self) -> GameSummaryView {
        GameSummaryView {
            game_id: self.game_id,
            name: self.name@,
            player_count: self.player_count as int,
            max_players: self.max_players as int,
            phase: self.phase@,
            pot: self.pot as int,
        }
    }
}

// ---------------------------------------------------------------------------
// Writing cards and phases
// ---------------------------------------------------------------------------
/// The card as text.
pub fn card_to_string(card: &Card) -> (text: String)
    ensures
        text@ == card.text(),
{
    card.to_string()
}

/// The phase as text.
pub fn phase_to_string(phase: &GamePhase) -> (text: String)
    ensures
        text@ == phase_name(*phase),
{
    match phase {
        GamePhase::PreFlop => String::from_str("preflop"),
        GamePhase::Flop => String::from_str("flop"),
        GamePhase::Turn => String::from_str("turn"),
        GamePhase::River => String::from_str("river"),
        GamePhase::Showdown => String::from_str("showdown"),
    }
}

/// The cards as texts.
pub fn cards_to_strings(cards: &Vec<Card>) -> (written: Vec<String>)
    ensures
        texts(written@) == card_texts(cards@),
{
    let mut written: Vec<String> = Vec::new();
    let mut i: usize = 0;
    while i < cards.len()
        invariant
            i <= cards@.len(),
            written@.len() == i,
            forall|k: int| 0 <= k < i ==> (#[trigger] written@[k])@ == cards@[k].text(),
        decreases cards@.len() - i,
    {
        written.push(card_to_string(&cards[i]));
        i += 1;
    }
    assert(texts(written@) =~= card_texts(cards@));
    written
}

/// How an action of the table is written in the list of legal actions.
pub fn action_to_string(action: &EngineAction) -> (text: String)
    ensures
        text@ == action_name(*action),
{
    match action {
        EngineAction::Fold => String::from_str("fold"),
        EngineAction::Check => String::from_str("check"),
        EngineAction::Call => String::from_str("call"),
        EngineAction::Raise(_) => String::from_str("raise"),
        EngineAction::AllIn => String::from_str("allin"),
    }
}

} // verus!
