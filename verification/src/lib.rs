//! A Go playing library: board representation, rules of play, move
//! statistics and the hashing used to detect repeated positions.

pub mod board;
pub mod cli;
pub mod config;
pub mod engine;
pub mod game;
pub mod gtp;
pub mod options;
mod random;
pub mod ruleset;
pub mod score;
pub mod text;
