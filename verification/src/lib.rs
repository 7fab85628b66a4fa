//! A two-player Tic-tac-toe engine with a perfect-play move selector.
//!
//! The crate is organised bottom-up: [`Mark`] is the player token, a
//! grid holds nine cells, the referee decides wins and draws, a game
//! enforces the rules, and the move selectors pick optimal moves by
//! exhaustive game-tree search.

pub mod ai;
pub mod cli;
pub mod game;
pub mod grid;
pub mod mark;
pub mod referee;
pub mod search;

pub use game::{Game, PlayError};
pub use grid::{Cell, Cells, Grid, Position, UnmarkedPositions};
pub use mark::Mark;
pub use referee::Outcome;
