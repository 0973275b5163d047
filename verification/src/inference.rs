//! Inference of a personality from events.

pub mod stats;
