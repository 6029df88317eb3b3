//! Ranking engine for a five-letter word-guessing puzzle.

pub mod api;
pub mod cache;
pub mod dictionary;
pub mod feedback;
pub mod guess;
pub mod laws;
pub mod packed;
pub mod ranking;
pub mod solver;
