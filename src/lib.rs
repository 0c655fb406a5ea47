//! Reading, classifying and summarising a player's log of game actions.
pub mod analyzer;
pub mod error;
pub mod model;
pub mod parser;
pub mod text;
