//! Ways of choosing a move.

pub mod dynamic_programming;
