//! Monte Carlo tree search for two-player, perfect-information board games,
//! with two bit-packed board engines: a 3x3 line game and a 61-cell
//! hexagonal connection game.

pub mod bits;
mod calls;
pub mod codec;
pub mod facade;
pub mod fixed;
pub mod game;
pub mod hex;
pub mod hex_game;
pub mod mcts;
pub mod outcome;
pub mod playout;
pub mod symmetry;
pub mod tictac;

pub use outcome::{other_player, GameOutcome, Player};
