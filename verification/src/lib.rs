//! Memory layer of a companion agent: keywords, prompts, jobs and statistics.

pub mod binary64;
pub mod chat;
pub mod ids;
pub mod inference;
pub mod init;
pub mod job;
pub mod keyword;
pub mod l1;
pub mod order;
pub mod text;
pub mod text_map;
pub mod utils;
