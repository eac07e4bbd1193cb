//! The shapes of the networks: everything about them that is decided before any weight
//! exists.

pub mod cnn;
pub mod pos_encoding;
pub mod residual;
pub mod rope;
pub mod rope_laws;
pub mod transformer;
