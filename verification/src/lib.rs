//! Territory scoring for Go-style board games.
//!
//! A board is a rectangle of cells, each holding at most one stone. Once the
//! stones that are to be treated as captured have been marked dead, the
//! scoring pass decides for every cell which player it counts for, and the
//! summation adds the points up and names the winner.

pub mod board;
pub mod scoring;
pub mod stone;
pub mod territory;

pub use board::{Board, Grid};
pub use scoring::{checked_score_sums, guess_dead_stones, score_stones, score_sums};
pub use stone::{Color, Stone, StoneView};
