//! An Othello (Reversi) engine: a bitboard rules kernel and a Monte Carlo
//! tree search planner built on it, with proved contracts for both.

pub mod ai;
pub mod bits;
pub mod game;
pub mod mcts;
pub mod rng;
