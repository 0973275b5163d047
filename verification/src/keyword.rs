//! Keywords: tokens, their normalisation, the dictionary, aliases, and the index.

pub mod alias;
pub mod composite;
pub mod index;
pub mod normalizer;
pub mod pool;
pub mod service;
pub mod token;
