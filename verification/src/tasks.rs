//! Task adapters: classical methods that need no deep-learning backend.
//!
//! Each adapter is a thin builder over a [`crate::study::Study`] plus a pre-built search space.

pub mod anomaly;
pub mod clustering;
pub mod pipeline;
pub mod rl;
pub mod vectors;
