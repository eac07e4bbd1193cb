//! Tree search.

pub mod answer;
pub mod config;
pub mod expand;
pub mod game;
pub mod halving;
pub mod halving_laws;
pub mod laws;
pub mod mean_laws;
pub mod node;
pub mod noise;
pub mod pace;
pub mod phase_laws;
pub mod policy;
pub mod read;
pub mod score_laws;
pub mod search;
pub mod select;
pub mod share_laws;
pub mod table;
pub mod value;
