//! A solver for a solitaire game played with three suited runs of numbered
//! cards, one special card and four dragons per suit.
//!
//! The board model, its move rules and the best-first search over board
//! states are verified.

pub mod card;
pub mod canonical;
pub mod game_state;
pub mod game;
pub mod deck;

pub use card::{Card, Suit};
pub use game::{Game, GameMove};
pub use game_state::{CanonicalForm, GameState, MoveColumnParameters};
