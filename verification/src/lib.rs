//! A verified engine for a 4x4 tile-merging puzzle: directional shift-and-merge
//! moves on a board, a self-refilling twelve-card deck, a rare bonus-tile track,
//! the game layer that ties them together, and a Monte Carlo move evaluator.

pub mod board;
pub mod deck;
pub mod evaluator;
pub mod game;
mod rng;
