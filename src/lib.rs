//! A single-player Minesweeper engine: board generation, flood-fill reveal,
//! win detection and parsing of the player's input.
pub mod count;
pub mod game;
pub mod parse;
mod random;

pub use game::{Cell, Game, GameError, GameView, RevealOutcome};
pub use parse::{parse_board_size, parse_coordinate, parse_count};


