//! A word-search validator for a Boggle-style letter grid.
//!
//! A square board of letter cells is generated (randomly, or from a literal
//! sequence of letters), a candidate word is checked for an adjacency-respecting,
//! cell-distinct path across the board, and each submitted guess is classified
//! and scored in a ledger.

pub mod board;
pub mod game;
pub mod text;
