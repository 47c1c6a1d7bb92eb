//! A move-selection engine for a four-in-a-row drop game on a rectangular
//! board: given a position and the player to move, `mcts::mcts` returns
//! the column to play.
//!
//! - `grid` holds the board as mathematics, and what holds of it.
//! - `c4` holds the board in memory, its gravity drops and the detection
//!   of four in a row through the piece played last.
//! - `tree` holds the game tree, whose nodes find their branches on
//!   demand and turn into leaves as soon as a move ends the game.
//! - `rollout` holds the estimator: random games played to their end, and
//!   the mean of their scores.
//! - `mcts` holds the search: minimax to a fixed depth with alpha-beta
//!   cut-offs, a discount of one tenth per level, and the estimator at the
//!   horizon.
//!
//! Every function is stated over a mathematical model (`grid::Grid` for a
//! board, `rollout::Game` for a random game, `mcts::Frame` for a level of
//! the search) and proved against it. Values are whole numbers of
//! hundred-thousandths of a point, so that no rounding takes part in a
//! decision.
//!
//! Taken on trust, and marked where they stand in `rollout`: that the
//! generator of `rand` draws a number below the bound it is given, and
//! that `rayon` hands back the sum of what its workers returned. Which
//! numbers the generator draws is left open: what is proved of a random
//! game, of an estimate and of the move chosen holds whatever it draws.

pub mod c4;
pub mod grid;
pub mod mcts;
pub mod rollout;
pub mod tree;
