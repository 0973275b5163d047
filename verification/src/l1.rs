//! Summaries of conversations.

pub mod prompt;
pub mod run;
pub mod summarizer;
