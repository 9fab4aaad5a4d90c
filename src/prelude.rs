//! The items most callers need.
pub use crate::board::{Board, Move, Piece, PieceKind, Side};
pub use crate::decider::{Decider, MaxMinDecider, RandomDecider};
pub use crate::evaluator::{Evaluator, Score, SimpleEvaluator};
pub use crate::game::{play_turn, Turn};
