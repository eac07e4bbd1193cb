//! The board game: rules, line detection, symmetry, and the screens on which it is played.

pub mod analyze;
pub mod board;
pub mod draw;
pub mod input;
pub mod laws;
pub mod lines;
pub mod play;
pub mod symmetry;
