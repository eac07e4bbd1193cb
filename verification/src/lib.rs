//! A verified core for an N-in-a-row (Gomoku) engine.

pub mod eval;
pub mod game;
pub mod grid;
pub mod inference;
pub mod mcts;
pub mod network;
pub mod number;
pub mod pool;
pub mod random;
pub mod reals;
pub mod selfplay;
pub mod text;
pub mod training;
