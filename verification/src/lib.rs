//! Texas Hold'em: cards, deck, hand evaluation, the betting state machine of one
//! table, and the rooms that host tables for remote players.

pub mod auth;
pub mod card;
pub mod deck;
pub mod game;
pub mod game_manager;
pub mod hand;
pub mod integrity;
pub mod models;
pub mod text;

pub use card::{Card, Rank, Suit};
pub use deck::Deck;
pub use game::{GamePhase, GameState, Player, PlayerAction, PlayerId, PlayerStatus};
pub use hand::{Hand, HandRank};
