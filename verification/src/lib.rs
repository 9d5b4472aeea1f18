//! Solver for the Letter Boxed word puzzle: twelve letters on the four
//! sides of a square, three per side. A solution is a short chain of
//! dictionary words in which consecutive letters never come from the same
//! side, each word starts with the letter the previous one ended with, and
//! the chain together uses all twelve letters.

pub mod grid;
pub mod letters;
pub mod solver;

pub use grid::Grid;
pub use grid::Side;
