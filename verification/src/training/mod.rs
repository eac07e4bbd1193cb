//! Training: the sample buffer and the decisions of the training loop.

pub mod batch;
pub mod buffer;
pub mod loss_scaler;
pub mod lr_schedule;
pub mod metrics;
pub mod replay;
pub mod trainer;
