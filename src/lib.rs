//! A small rule engine and move search for a nine-by-ten capture-the-general chess variant.
//!
//! `board` holds the position, move application and exact undo; `movegen` the
//! per-piece move rules and the repetition filter; `evaluator` and `decider` the
//! static evaluation and the iterative-deepening negamax search.

pub mod board;
pub mod movegen;
pub mod evaluator;
pub mod decider;
pub mod game;
pub mod prelude;
