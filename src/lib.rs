//! Search for 3x3 quasi-magic squares of squares, together with the
//! number-theoretic filters (two and three squares) that prune the search.

pub mod generate_squares;
pub mod utils;
pub mod magic_squares;
pub mod conjecture;
pub mod factors;
