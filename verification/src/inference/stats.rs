//! Statistics of events: which events count, how they are grouped, and which of them stand
//! for their group.
//!
//! The figures themselves are calculated outside, from what is decided here.

pub mod admission;
pub mod category;
pub mod config;
pub mod representative;
pub mod run;
