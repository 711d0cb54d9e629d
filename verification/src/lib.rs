//! Solver for the twelve-symbol, four-peg code-breaking puzzle of the minotaur vaults,
//! together with the image helpers that read the puzzle state out of a screenshot.

pub mod solver;
pub mod bmp;
pub mod vault;
pub mod capture;
