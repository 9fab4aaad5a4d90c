//! One turn of a game: ask a decider for a move and apply it with the full
//! legality check.
use crate::board::{Board, Move, Side};
use crate::decider::Decider;
use crate::movegen::{lemma_side_move_is_legal, moves_of_side};
use vstd::prelude::*;

verus! {

/// What came of one turn.
#[derive(Debug, Clone, Copy)]
pub enum Turn {
    /// The side had no move.
    NoMove,
    /// The decider offered a move that the board refused; a decider that
    /// keeps its contract never causes this.
    Rejected(Move),
    /// The move was played and the game goes on.
    Played(Move),
    /// The move was played and captured a General; the winner is given.
    Over(Move, Option<Side>),
}

/// Plays one turn of `side`: the decider's move is applied through the
/// checked `apply_move`, never the unchecked one.
pub fn play_turn<D: Decider>(decider: &D, board: &mut Board, side: Side) -> (r: Turn)
    requires
        old(board).wf(),
    ensures
        final(board).wf(),
        r is NoMove <==> moves_of_side(old(board)@, side).len() == 0,
        r is NoMove ==> final(board)@ == old(board)@,
        moves_of_side(old(board)@, side).len() > 0 ==> (r is Played || r is Over),
        r matches Turn::Rejected(m) ==> final(board)@ == old(board)@
            && moves_of_side(old(board)@, side).contains(m),
        r matches Turn::Played(m) ==> final(board)@ == old(board)@.apply(m)
            && !final(board)@.finished && moves_of_side(old(board)@, side).contains(m),
        r matches Turn::Over(m, w) ==> final(board)@ == old(board)@.apply(m)
            && final(board)@.finished && w == final(board)@.winner
            && moves_of_side(old(board)@, side).contains(m),
{
    match decider.make_decision(board, side) {
        None => Turn::NoMove,
        Some(m) => {
            proof {
                lemma_side_move_is_legal(board@, side, m);
            }
            if board.apply_move(&m).is_err() {
                Turn::Rejected(m)
            } else if board.game_finished() {
                Turn::Over(m, board.get_winner())
            } else {
                Turn::Played(m)
            }
        },
    }
}

} // verus!
