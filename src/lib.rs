//! Shortest rolling path of a ball through a maze into a hole.

pub mod grid;
pub mod laws;
pub mod lex;
pub mod maze;
pub mod search;
pub mod solution;

pub use solution::Solution;
