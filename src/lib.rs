//! A minimax solver for a five-letter word-guessing puzzle: feedback under
//! duplicate letters, constraints derived from feedback, candidate filtering,
//! guess selection, the solve loop's decisions, and a table of precomputed
//! second guesses.

pub mod feedback;
pub mod pattern;
pub mod solve;
pub mod precompute;
pub mod pipeline;
pub mod session;
pub mod words;
pub mod ui;
