//! Move choosers: the decider interface, an iterative-deepening negamax search
//! with alpha-beta pruning and a node budget, and a random chooser.
use crate::board::{in_board, ip, lemma_undo_inverts_apply, opponent, Board, BoardState, Move, Side};
use crate::evaluator::{lemma_flip_order, lemma_score_bounds, lemma_score_trans, Evaluator, Score};
use crate::movegen::{moves_of_side, on_grid};
use rand::seq::SliceRandom;
use vstd::prelude::*;

verus! {

/// The deepest iteration the search attempts.
pub const MAX_DEPTH: u32 = 999;

/// Chooses a move for one side.
pub trait Decider {
    /// One of `side`'s moves on `board`; `None` exactly when it has none.
    fn make_decision(&self, board: &Board, side: Side) -> (r: Option<Move>)
        requires
            board.wf(),
        ensures
            r is None <==> moves_of_side(board@, side).len() == 0,
            r matches Some(m) ==> moves_of_side(board@, side).contains(m),
    ;
}

/// Whether applying `m` ends the game.
pub open spec fn finishes(b: BoardState, m: Move) -> bool {
    b.apply(m).finished
}

/// `m` is the first move of `ms` whose application ends the game.
pub open spec fn first_finishing(b: BoardState, ms: Seq<Move>, m: Move) -> bool {
    exists|j: int|
        0 <= j < ms.len() && ms[j] == m && finishes(b, ms[j]) && forall|k: int|
            0 <= k < j ==> !finishes(b, #[trigger] ms[k])
}

/// The negamax value of `b` for `side` searched `depth` plies deep: the
/// evaluation at the horizon or on a finished board; otherwise the best over
/// the side's moves of one minus the opponent's value after the move, or zero
/// when the side has no move.
pub open spec fn negamax<E: Evaluator>(e: E, b: BoardState, side: Side, depth: nat) -> Score
    decreases depth, 1nat, 0int,
{
    if depth == 0 || b.finished {
        e.spec_evaluate(b, side)
    } else {
        best_reply(e, b, side, depth, moves_of_side(b, side))
    }
}

/// The best of the move scores of `ms`, the first one on ties; zero for no move.
pub open spec fn best_reply<E: Evaluator>(e: E, b: BoardState, side: Side, depth: nat, ms: Seq<Move>) -> Score
    decreases depth, 0nat, ms.len() + 1,
{
    if ms.len() == 0 {
        Score { num: 0, den: 1 }
    } else {
        let rest = best_reply(e, b, side, depth, ms.drop_last());
        let s = move_score(e, b, side, depth, ms.last());
        if s.gt(rest) {
            s
        } else {
            rest
        }
    }
}

/// One minus the opponent's value after `m`, searched one ply less deep.
pub open spec fn move_score<E: Evaluator>(e: E, b: BoardState, side: Side, depth: nat, m: Move) -> Score
    decreases depth, 0nat, 0int,
{
    if depth == 0 {
        Score { num: 0, den: 1 }
    } else {
        negamax(e, b.apply(m), opponent(side), (depth - 1) as nat).flip()
    }
}

/// What an alpha-beta search with window `(alpha, beta)` may return for a
/// position of value `v`: a result at most `alpha` bounds `v` from above, one
/// at least `beta` bounds it from below, and one strictly between is `v`.
pub open spec fn within_window(r: Score, v: Score, alpha: Score, beta: Score) -> bool {
    &&& r.le(alpha) ==> v.le(r)
    &&& beta.le(r) ==> r.le(v)
    &&& (alpha.lt(r) && r.lt(beta)) ==> r.eqv(v)
}

/// `k` is the first of the moves `ms` with the greatest move score.
pub open spec fn first_best<E: Evaluator>(e: E, b: BoardState, side: Side, depth: nat, ms: Seq<Move>, k: int) -> bool {
    &&& 0 <= k < ms.len()
    &&& forall|j: int| 0 <= j < k ==> (#[trigger] move_score(e, b, side, depth, ms[j])).lt(move_score(e, b, side, depth, ms[k]))
    &&& forall|j: int| k < j < ms.len() ==> (#[trigger] move_score(e, b, side, depth, ms[j])).le(move_score(e, b, side, depth, ms[k]))
}

/// Every value lies in `[0, 1]`.
pub proof fn lemma_negamax_wf<E: Evaluator>(e: E, b: BoardState, side: Side, depth: nat)
    ensures
        negamax(e, b, side, depth).wf(),
    decreases depth, 1nat, 0int,
{
    if depth == 0 || b.finished {
        e.lemma_evaluate_wf(b, side);
    } else {
        lemma_best_reply_wf(e, b, side, depth, moves_of_side(b, side));
    }
}

/// Every best reply and move score lies in `[0, 1]`.
pub proof fn lemma_best_reply_wf<E: Evaluator>(e: E, b: BoardState, side: Side, depth: nat, ms: Seq<Move>)
    requires
        depth > 0,
    ensures
        best_reply(e, b, side, depth, ms).wf(),
        forall|j: int| 0 <= j < ms.len() ==> (#[trigger] move_score(e, b, side, depth, ms[j])).wf(),
    decreases depth, 0nat, ms.len() + 1,
{
    if ms.len() > 0 {
        lemma_best_reply_wf(e, b, side, depth, ms.drop_last());
        assert forall|j: int| 0 <= j < ms.len() implies (#[trigger] move_score(e, b, side, depth, ms[j])).wf() by {
            let v = negamax(e, b.apply(ms[j]), opponent(side), (depth - 1) as nat);
            lemma_negamax_wf(e, b.apply(ms[j]), opponent(side), (depth - 1) as nat);
            lemma_flip_order(v, v);
            if j < ms.len() - 1 {
                assert(ms.drop_last()[j] == ms[j]);
            }
        }
        assert(move_score(e, b, side, depth, ms[ms.len() - 1]).wf());
    }
}

/// The best reply over one more move.
pub proof fn lemma_best_reply_take<E: Evaluator>(e: E, b: BoardState, side: Side, depth: nat, ms: Seq<Move>, i: int)
    requires
        0 <= i < ms.len(),
    ensures
        best_reply(e, b, side, depth, ms.take(i + 1)) == if move_score(e, b, side, depth, ms[i]).gt(
            best_reply(e, b, side, depth, ms.take(i)),
        ) {
            move_score(e, b, side, depth, ms[i])
        } else {
            best_reply(e, b, side, depth, ms.take(i))
        },
{
    assert(ms.take(i + 1).drop_last() =~= ms.take(i));
    assert(ms.take(i + 1).last() == ms[i]);
}

/// The best reply over a prefix is at most the best reply over a longer prefix.
pub proof fn lemma_best_reply_monotone<E: Evaluator>(e: E, b: BoardState, side: Side, depth: nat, ms: Seq<Move>, i: int, n: int)
    requires
        depth > 0,
        0 <= i <= n <= ms.len(),
    ensures
        best_reply(e, b, side, depth, ms.take(i)).le(best_reply(e, b, side, depth, ms.take(n))),
    decreases n - i,
{
    lemma_best_reply_wf(e, b, side, depth, ms.take(i));
    if i < n {
        lemma_best_reply_monotone(e, b, side, depth, ms, i + 1, n);
        lemma_best_reply_take(e, b, side, depth, ms, i);
        lemma_best_reply_wf(e, b, side, depth, ms.take(i + 1));
        lemma_best_reply_wf(e, b, side, depth, ms.take(n));
        lemma_best_reply_wf(e, b, side, depth, ms);
        let s = move_score(e, b, side, depth, ms[i]);
        assert(s.wf()) by {
            assert(ms[i] == ms[i]);
        }
        lemma_score_trans(
            best_reply(e, b, side, depth, ms.take(i)),
            best_reply(e, b, side, depth, ms.take(i + 1)),
            best_reply(e, b, side, depth, ms.take(n)),
        );
    }
}

/// What the budgeted search returns and the node count it leaves behind. Each
/// call counts one node and gives up with `None` once the count passes
/// `budget`; at the horizon or on a finished board it returns the evaluation;
/// otherwise it scans the side's moves from zero (see [`scan_moves`]).
pub open spec fn search_outcome<E: Evaluator>(
    e: E,
    b: BoardState,
    side: Side,
    depth: nat,
    count: nat,
    alpha: Score,
    beta: Score,
    budget: nat,
) -> (Option<Score>, nat)
    decreases depth, 1nat, 0int,
{
    let c = count + 1;
    if c > budget {
        (None, c)
    } else if depth == 0 || b.finished {
        (Some(e.spec_evaluate(b, side)), c)
    } else {
        scan_moves(e, b, side, depth, moves_of_side(b, side), 0, c, Score { num: 0, den: 1 }, alpha, beta, budget)
    }
}

/// The scan of moves `ms[i..]`: each move scores one minus the opponent's
/// search one ply less deep with the window `(1 - beta, 1 - alpha)`; `best`
/// takes a strictly greater score, `alpha` rises to `best`, and the scan stops
/// with `best` once `alpha` passes `beta`, or with `None` when the budget runs out.
pub open spec fn scan_moves<E: Evaluator>(
    e: E,
    b: BoardState,
    side: Side,
    depth: nat,
    ms: Seq<Move>,
    i: int,
    count: nat,
    best: Score,
    alpha: Score,
    beta: Score,
    budget: nat,
) -> (Option<Score>, nat)
    decreases depth, 0nat, ms.len() - i,
{
    if i >= ms.len() || depth == 0 || i < 0 {
        (Some(best), count)
    } else {
        let (child, c2) = search_outcome(
            e,
            b.apply(ms[i]),
            opponent(side),
            (depth - 1) as nat,
            count,
            beta.flip(),
            alpha.flip(),
            budget,
        );
        match child {
            None => (None, c2),
            Some(cs) => {
                let score = cs.flip();
                let best2 = if score.gt(best) {
                    score
                } else {
                    best
                };
                let alpha2 = if best2.gt(alpha) {
                    best2
                } else {
                    alpha
                };
                if alpha2.gt(beta) {
                    (Some(best2), c2)
                } else {
                    scan_moves(e, b, side, depth, ms, i + 1, c2, best2, alpha2, beta, budget)
                }
            },
        }
    }
}

/// The index one iteration at `depth` settles on, scanning root moves from
/// `i`: each move is searched with the window `(0, 1 - alpha)` on the node
/// count left by the previous one; the first move is taken, and later a move
/// with a strictly greater score; `None` once the budget runs out.
pub open spec fn root_outcome<E: Evaluator>(
    e: E,
    b: BoardState,
    side: Side,
    depth: nat,
    ms: Seq<Move>,
    i: int,
    count: nat,
    decision: Option<int>,
    max_score: Score,
    alpha: Score,
    budget: nat,
) -> Option<int>
    decreases ms.len() - i,
{
    if i >= ms.len() || i < 0 {
        decision
    } else {
        let (child, c2) = search_outcome(
            e,
            b.apply(ms[i]),
            opponent(side),
            (depth - 1) as nat,
            count,
            Score { num: 0, den: 1 },
            alpha.flip(),
            budget,
        );
        match child {
            None => None,
            Some(cs) => {
                let score = cs.flip();
                if decision is None || score.gt(max_score) {
                    let alpha2 = if score.gt(alpha) {
                        score
                    } else {
                        alpha
                    };
                    root_outcome(e, b, side, depth, ms, i + 1, c2, Some(i), score, alpha2, budget)
                } else {
                    root_outcome(e, b, side, depth, ms, i + 1, c2, decision, max_score, alpha, budget)
                }
            },
        }
    }
}

/// The root move index that the iteration at `depth` settles on, with a fresh
/// node count; `None` when it runs out of budget.
pub open spec fn iteration<E: Evaluator>(e: E, b: BoardState, side: Side, depth: nat, budget: nat) -> Option<int> {
    root_outcome(
        e,
        b,
        side,
        depth,
        moves_of_side(b, side),
        0,
        0,
        None,
        Score { num: 0, den: 1 },
        Score { num: 0, den: 1 },
        budget,
    )
}

/// An index as a mathematical integer.
pub open spec fn as_index(o: Option<usize>) -> Option<int> {
    match o {
        Some(k) => Some(k as int),
        None => None,
    }
}

/// No move of `ms` captures a General.
pub open spec fn no_finishing(b: BoardState, ms: Seq<Move>) -> bool {
    forall|k: int| 0 <= k < ms.len() ==> !finishes(b, #[trigger] ms[k])
}

/// `k` is the choice of the deepest iteration that finished within `budget`:
/// the iterations at depths one to `d` all finish, the one at `d` settles on
/// `k`, and the next one runs out of budget unless `d` is the deepest allowed.
pub open spec fn deepest_choice<E: Evaluator>(e: E, b: BoardState, side: Side, budget: nat, d: nat, k: int) -> bool {
    &&& 1 <= d <= MAX_DEPTH
    &&& forall|d2: nat| 1 <= d2 <= d ==> (#[trigger] iteration(e, b, side, d2, budget)) is Some
    &&& iteration(e, b, side, d, budget) == Some(k)
    &&& (d == MAX_DEPTH || iteration(e, b, side, d + 1, budget) is None)
}

/// The result of the iterative deepening when no move captures a General: the
/// first move of greatest negamax score in the deepest iteration that finished
/// within `budget` (which the first one does when the budget covers one node a
/// move), or the first move when not even the first iteration finishes.
pub open spec fn searched_choice<E: Evaluator>(e: E, b: BoardState, side: Side, budget: nat, r: Option<Move>) -> bool {
    let ms = moves_of_side(b, side);
    &&& ms.len() <= budget ==> iteration(e, b, side, 1, budget) is Some
    &&& iteration(e, b, side, 1, budget) is None ==> r == Some(ms[0])
    &&& iteration(e, b, side, 1, budget) is Some ==> exists|d: nat, k: int|
        #[trigger] deepest_choice(e, b, side, budget, d, k) && first_best(e, b, side, d, ms, k) && r == Some(ms[k])
}

/// Negamax search with alpha-beta pruning over a node budget.
#[derive(Debug, Clone)]
pub struct MaxMinDecider<E: Evaluator> {
    evaluator: E,
    max_node_count: u32,
}

/// Chooses uniformly at random among the moves.
#[derive(Debug, Clone)]
pub struct RandomDecider {}

impl<E: Evaluator> MaxMinDecider<E> {
    /// A searcher that scores leaves with `evaluator` and gives up an
    /// iteration after `max_node_count` search nodes.
    pub fn new(evaluator: E, max_node_count: u32) -> (r: MaxMinDecider<E>)
        ensures
            r.max_node_count() == max_node_count,
            r.evaluator() == evaluator,
    {
        Self { evaluator, max_node_count }
    }

    /// The node budget of one iteration.
    pub closed spec fn max_node_count(&self) -> u32 {
        self.max_node_count
    }

    /// The evaluator that scores the leaves.
    pub closed spec fn evaluator(&self) -> E {
        self.evaluator
    }

    /// The score of `board` for `side` searched `depth` plies deep with the
    /// window `(alpha, beta)` (see [`within_window`]); `None` once the node
    /// budget is spent. The board is left exactly as it was on every path.
    fn max_min_search(
        &self,
        board: &mut Board,
        side: Side,
        depth: u32,
        current_node_count: &mut u64,
        alpha: Score,
        beta: Score,
    ) -> (r: Option<Score>)
        requires
            old(board).wf(),
            alpha.wf(),
            beta.wf(),
            alpha.le(beta),
            *old(current_node_count) <= self.max_node_count as u64,
        ensures
            final(board)@ == old(board)@,
            final(board).wf(),
            *final(current_node_count) <= self.max_node_count as u64 + 1,
            r is Some ==> *final(current_node_count) <= self.max_node_count as u64,
            *old(current_node_count) < *final(current_node_count),
            r is None <==> *final(current_node_count) > self.max_node_count as u64,
            depth == 0 ==> *final(current_node_count) == *old(current_node_count) + 1 && (r is Some
                <==> *old(current_node_count) + 1 <= self.max_node_count as u64),
            (depth == 0 || old(board)@.finished) && *old(current_node_count) + 1
                <= self.max_node_count as u64 ==> r == Some(
                self.evaluator.spec_evaluate(old(board)@, side),
            ),
            (r, *final(current_node_count) as nat) == search_outcome(
                self.evaluator,
                old(board)@,
                side,
                depth as nat,
                *old(current_node_count) as nat,
                alpha,
                beta,
                self.max_node_count as nat,
            ),
            r matches Some(s) ==> s.wf() && within_window(
                s,
                negamax(self.evaluator, old(board)@, side, depth as nat),
                alpha,
                beta,
            ),
        decreases depth,
    {
        *current_node_count = *current_node_count + 1;
        if *current_node_count > self.max_node_count as u64 {
            return None;
        }
        if depth == 0 || board.game_finished() {
            let s = self.evaluator.evaluate(board, side);
            proof {
                self.evaluator.lemma_evaluate_wf(board@, side);
            }
            return Some(s);
        }
        let ghost start: BoardState = board@;
        let ghost e = self.evaluator;
        let ghost d = depth as nat;
        let moves = board.query_possible_moves_of_side(side);
        let ghost ms = moves@;
        let ghost budget = self.max_node_count as nat;
        let ghost total = scan_moves(
            e,
            start,
            side,
            d,
            ms,
            0,
            *current_node_count as nat,
            Score::zero_spec(),
            alpha,
            beta,
            budget,
        );
        let mut best = Score::zero();
        let mut alpha_cur = alpha;
        let mut cut = false;
        let mut i: usize = 0;
        proof {
            lemma_best_reply_wf(e, start, side, d, ms);
            lemma_best_reply_wf(e, start, side, d, ms.take(0));
            assert(ms.take(0) =~= Seq::<Move>::empty());
            lemma_score_bounds(alpha);
            lemma_score_bounds(beta);
        }
        while i < moves.len() && !cut
            invariant
                i <= moves.len(),
                board@ == start,
                start == old(board)@,
                board.wf(),
                !start.finished,
                start.wf(),
                on_grid(moves@),
                ms == moves@,
                ms == moves_of_side(start, side),
                e == self.evaluator,
                d == depth as nat,
                depth > 0,
                best.wf(),
                alpha_cur.wf(),
                alpha.wf(),
                beta.wf(),
                alpha.le(beta),
                alpha.le(alpha_cur),
                best.le(alpha_cur),
                alpha_cur == alpha || alpha_cur == best,
                !cut ==> alpha_cur.le(beta),
                cut ==> beta.lt(best),
                best_reply(e, start, side, d, ms.take(i as int)).wf(),
                (best.lt(beta) || best.le(alpha)) ==> best_reply(e, start, side, d, ms.take(i as int)).le(best),
                (alpha.lt(best) || beta.le(best)) ==> best.le(best_reply(e, start, side, d, ms.take(i as int))),
                *current_node_count <= self.max_node_count as u64,
                *old(current_node_count) < *current_node_count,
                budget == self.max_node_count as nat,
                total == search_outcome(e, start, side, d, *old(current_node_count) as nat, alpha, beta, budget),
                !cut ==> scan_moves(e, start, side, d, ms, i as int, *current_node_count as nat, best, alpha_cur, beta, budget) == total,
                cut ==> total == (Some(best), *current_node_count as nat),
            decreases moves.len() - i,
        {
            let step = moves[i];
            assert(in_board(ip(moves@[i as int].pos_from)));
            proof {
                lemma_flip_order(alpha_cur, beta);
            }
            board.apply_move_unchecked(&step);
            let child = self.max_min_search(
                board,
                side.other(),
                depth - 1,
                current_node_count,
                beta.complement(),
                alpha_cur.complement(),
            );
            let _ = board.undo_move();
            proof {
                lemma_undo_inverts_apply(start, step);
            }
            match child {
                None => {
                    return None;
                },
                Some(child_score) => {
                    let score = child_score.complement();
                    let ghost c = child_score;
                    let ghost vc = negamax(e, start.apply(step), opponent(side), (depth - 1) as nat);
                    let ghost w = move_score(e, start, side, d, ms[i as int]);
                    let ghost p = best_reply(e, start, side, d, ms.take(i as int));
                    let ghost old_best = best;
                    let ghost old_alpha = alpha_cur;
                    proof {
                        lemma_negamax_wf(e, start.apply(step), opponent(side), (depth - 1) as nat);
                        assert(w == vc.flip());
                        lemma_flip_order(beta, beta);
                        lemma_flip_order(alpha_cur, alpha_cur);
                        lemma_flip_order(c, beta.flip());
                        lemma_flip_order(beta.flip(), c);
                        lemma_flip_order(vc, c);
                        lemma_flip_order(c, vc);
                        lemma_flip_order(alpha_cur.flip(), c);
                        lemma_flip_order(c, alpha_cur.flip());
                        // what the child's window says of this move's score
                        assert(beta.le(score) ==> score.le(w));
                        assert(score.le(alpha_cur) ==> w.le(score));
                        assert(alpha_cur.lt(score) && score.lt(beta) ==> score.eqv(w));
                        lemma_best_reply_take(e, start, side, d, ms, i as int);
                    }
                    if score.greater_than(&best) {
                        best = score;
                    }
                    if best.greater_than(&alpha_cur) {
                        alpha_cur = best;
                    }
                    if alpha_cur.greater_than(&beta) {
                        cut = true;
                    }
                    proof {
                        let p2 = best_reply(e, start, side, d, ms.take(i + 1));
                        assert(old_best.le(best));
                        assert(p.le(p2) && w.le(p2));
                        assert(score.le(best));
                        if best.lt(beta) || best.le(alpha) {
                            lemma_score_trans(old_best, best, beta);
                            lemma_score_trans(old_best, best, alpha);
                            assert(p.le(old_best));
                            lemma_score_trans(p, old_best, best);
                            if best.le(alpha) {
                                lemma_score_trans(score, best, alpha);
                                lemma_score_trans(score, alpha, old_alpha);
                            } else if !score.le(old_alpha) {
                                lemma_score_trans(score, best, beta);
                                assert(score.eqv(w));
                            }
                            assert(w.le(score));
                            lemma_score_trans(w, score, best);
                        }
                        if alpha.lt(best) || beta.le(best) {
                            if best != old_best {
                                if !beta.le(score) {
                                    assert(old_alpha.lt(score));
                                    assert(score.eqv(w));
                                }
                                assert(score.le(w));
                                lemma_score_trans(score, w, p2);
                            } else {
                                lemma_score_trans(best, p, p2);
                            }
                        }
                    }
                },
            }
            i = i + 1;
        }
        proof {
            lemma_best_reply_monotone(e, start, side, d, ms, i as int, ms.len() as int);
            assert(ms.take(ms.len() as int) =~= ms);
            lemma_best_reply_wf(e, start, side, d, ms);
            lemma_score_trans(alpha, beta, best);
            lemma_score_trans(best, best_reply(e, start, side, d, ms.take(i as int)), best_reply(e, start, side, d, ms));
        }
        Some(best)
    }

    /// The first of `side`'s moves that captures a General, if any.
    fn immediate_finish(board: &Board, side: Side, moves: &Vec<Move>) -> (r: Option<Move>)
        requires
            board.wf(),
            moves@ == moves_of_side(board@, side),
            on_grid(moves@),
        ensures
            r matches Some(m) ==> first_finishing(board@, moves@, m),
            r is None ==> forall|k: int| 0 <= k < moves@.len() ==> !finishes(board@, #[trigger] moves@[k]),
    {
        let mut playground = board.snapshot();
        let ghost start: BoardState = board@;
        let mut i: usize = 0;
        while i < moves.len()
            invariant
                i <= moves.len(),
                start == board@,
                playground@ == start,
                playground.wf(),
                on_grid(moves@),
                forall|k: int| 0 <= k < i ==> !finishes(start, #[trigger] moves@[k]),
            decreases moves.len() - i,
        {
            let step = moves[i];
            playground.apply_move_unchecked(&step);
            if playground.game_finished() {
                assert(moves@[i as int] == step);
                return Some(step);
            }
            let _ = playground.undo_move();
            proof {
                lemma_undo_inverts_apply(start, step);
            }
            i = i + 1;
        }
        None
    }

    /// The move chosen by iterative deepening: a move that captures a General
    /// is played at once; otherwise each depth from one upward searches every
    /// move, an iteration that runs out of node budget is discarded, and the
    /// first move of greatest negamax score in the deepest completed iteration
    /// is played (the first move when not even depth one completes).
    pub fn decide(&self, board: &Board, side: Side) -> (r: Option<Move>)
        requires
            board.wf(),
        ensures
            r is None <==> moves_of_side(board@, side).len() == 0,
            r matches Some(m) ==> moves_of_side(board@, side).contains(m),
            !no_finishing(board@, moves_of_side(board@, side)) ==> (r matches Some(m)
                && first_finishing(board@, moves_of_side(board@, side), m)),
            no_finishing(board@, moves_of_side(board@, side)) && moves_of_side(board@, side).len() > 0
                ==> searched_choice(self.evaluator(), board@, side, self.max_node_count() as nat, r),
    {
        let moves = board.query_possible_moves_of_side(side);
        if moves.len() == 0 {
            return None;
        }
        let shortcut = Self::immediate_finish(board, side, &moves);
        if shortcut.is_some() {
            return shortcut;
        }
        assert(!finishes(board@, moves@[0]));
        let ghost e = self.evaluator;
        let ghost budget = self.max_node_count as nat;
        let mut ret: usize = 0;
        let mut depth: u32 = 1;
        let mut out_of_budget = false;
        while depth <= MAX_DEPTH && !out_of_budget
            invariant
                1 <= depth <= MAX_DEPTH + 1,
                board.wf(),
                !board@.finished,
                moves@ == moves_of_side(board@, side),
                on_grid(moves@),
                moves@.len() > 0,
                e == self.evaluator,
                budget == self.max_node_count as nat,
                ret < moves.len(),
                depth == 1 ==> ret == 0,
                forall|d2: nat| 1 <= d2 < depth ==> (#[trigger] iteration(e, board@, side, d2, budget)) is Some,
                depth > 1 ==> iteration(e, board@, side, (depth - 1) as nat, budget) == Some(ret as int)
                    && first_best(e, board@, side, (depth - 1) as nat, moves@, ret as int),
                out_of_budget ==> iteration(e, board@, side, depth as nat, budget) is None,
                out_of_budget && depth == 1 ==> moves@.len() > self.max_node_count,
            decreases 2 * (MAX_DEPTH + 1 - depth) + if out_of_budget {
                0int
            } else {
                1int
            },
        {
            match self.search_root(board, side, &moves, depth) {
                Some(choice) => {
                    ret = choice;
                    depth = depth + 1;
                },
                None => {
                    out_of_budget = true;
                },
            }
        }
        assert(moves@.contains(moves@[ret as int]));
        proof {
            if depth > 1 {
                let d = (depth - 1) as nat;
                assert(deepest_choice(e, board@, side, budget, d, ret as int));
                assert(first_best(e, board@, side, d, moves@, ret as int));
            } else {
                assert(iteration(e, board@, side, 1, budget) is None);
            }
        }
        Some(moves[ret])
    }

    /// One iteration at `depth`: the index of the first move of greatest move
    /// score, or `None` when the node budget runs out first.
    fn search_root(&self, board: &Board, side: Side, moves: &Vec<Move>, depth: u32) -> (r: Option<
        usize,
    >)
        requires
            board.wf(),
            !board@.finished,
            depth >= 1,
            on_grid(moves@),
            moves@.len() > 0,
            moves@ == moves_of_side(board@, side),
        ensures
            as_index(r) == iteration(self.evaluator, board@, side, depth as nat, self.max_node_count as nat),
            r matches Some(k) ==> first_best(self.evaluator, board@, side, depth as nat, moves@, k as int),
            depth == 1 && moves@.len() <= self.max_node_count ==> r is Some,
    {
        let mut playground = board.snapshot();
        let ghost start: BoardState = board@;
        let ghost e = self.evaluator;
        let ghost d = depth as nat;
        let ghost ms = moves@;
        let mut current_node_count: u64 = 0;
        let mut decision: Option<usize> = None;
        let mut max_score = Score::zero();
        let mut alpha = Score::zero();
        let mut i: usize = 0;
        let ghost budget = self.max_node_count as nat;
        let ghost total = iteration(e, start, side, d, budget);
        proof {
            lemma_best_reply_wf(e, start, side, d, ms);
        }
        while i < moves.len()
            invariant
                i <= moves.len(),
                playground@ == start,
                playground.wf(),
                start == board@,
                board.wf(),
                !start.finished,
                depth >= 1,
                e == self.evaluator,
                d == depth as nat,
                ms == moves@,
                on_grid(moves@),
                moves@.len() > 0,
                forall|j: int| 0 <= j < ms.len() ==> (#[trigger] move_score(e, start, side, d, ms[j])).wf(),
                max_score.wf(),
                alpha.wf(),
                current_node_count <= self.max_node_count as u64,
                depth == 1 ==> current_node_count == i,
                decision is None <==> i == 0,
                decision is None ==> alpha == Score::zero_spec(),
                decision is None ==> max_score == Score::zero_spec(),
                budget == self.max_node_count as nat,
                ms == moves_of_side(start, side),
                total == iteration(e, start, side, d, budget),
                root_outcome(e, start, side, d, ms, i as int, current_node_count as nat, as_index(decision), max_score, alpha, budget) == total,
                decision matches Some(k) ==> {
                    &&& k < i
                    &&& alpha.eqv(max_score)
                    &&& move_score(e, start, side, d, ms[k as int]).eqv(max_score)
                    &&& forall|j: int| 0 <= j < k ==> (#[trigger] move_score(e, start, side, d, ms[j])).lt(max_score)
                    &&& forall|j: int| k < j < i ==> (#[trigger] move_score(e, start, side, d, ms[j])).le(max_score)
                },
            decreases moves.len() - i,
        {
            let step = moves[i];
            assert(in_board(ip(moves@[i as int].pos_from)));
            proof {
                lemma_flip_order(alpha, alpha);
                lemma_score_bounds(alpha.flip());
            }
            playground.apply_move_unchecked(&step);
            let result = self.max_min_search(
                &mut playground,
                side.other(),
                depth - 1,
                &mut current_node_count,
                Score::zero(),
                alpha.complement(),
            );
            let _ = playground.undo_move();
            proof {
                lemma_undo_inverts_apply(start, step);
            }
            match result {
                None => {
                    return None;
                },
                Some(child_score) => {
                    let score = child_score.complement();
                    let ghost c = child_score;
                    let ghost vc = negamax(e, start.apply(step), opponent(side), (depth - 1) as nat);
                    let ghost w = move_score(e, start, side, d, ms[i as int]);
                    let ghost old_max = max_score;
                    let ghost old_decision = decision;
                    let ghost zero = Score::zero_spec();
                    let ghost one = Score { num: 1, den: 1 };
                    proof {
                        lemma_negamax_wf(e, start.apply(step), opponent(side), (depth - 1) as nat);
                        assert(w == vc.flip());
                        lemma_flip_order(zero, zero);
                        lemma_flip_order(c, zero);
                        lemma_flip_order(zero, c);
                        lemma_flip_order(vc, c);
                        lemma_flip_order(c, vc);
                        lemma_flip_order(alpha.flip(), c);
                        lemma_flip_order(c, alpha.flip());
                        assert(zero.flip() == one);
                        // what the child's window says of this move's score
                        assert(one.le(score) ==> score.le(w));
                        assert(score.le(alpha) ==> w.le(score));
                        assert(alpha.lt(score) && score.lt(one) ==> score.eqv(w));
                        lemma_score_bounds(w);
                        lemma_score_bounds(score);
                    }
                    if decision.is_none() || score.greater_than(&max_score) {
                        proof {
                            if old_decision is Some {
                                lemma_score_trans(alpha, old_max, score);
                            }
                            if !score.lt(one) {
                                assert(score.le(w));
                                lemma_score_trans(w, one, score);
                            } else if score.le(alpha) {
                                assert(w.le(score));
                                lemma_score_trans(score, zero, w);
                            }
                            assert(score.eqv(w));
                            if let Some(k) = old_decision {
                                assert forall|j: int| 0 <= j < i implies (#[trigger] move_score(e, start, side, d, ms[j])).lt(score) by {
                                    lemma_score_trans(move_score(e, start, side, d, ms[j]), old_max, score);
                                }
                            }
                        }
                        max_score = score;
                        decision = Some(i);
                        if max_score.greater_than(&alpha) {
                            alpha = max_score;
                        }
                    } else {
                        proof {
                            lemma_score_trans(score, old_max, alpha);
                            assert(w.le(score));
                            lemma_score_trans(w, score, old_max);
                        }
                    }
                },
            }
            i = i + 1;
        }
        proof {
            if let Some(k) = decision {
                let wk = move_score(e, start, side, d, ms[k as int]);
                assert forall|j: int| 0 <= j < k implies (#[trigger] move_score(e, start, side, d, ms[j])).lt(wk) by {
                    lemma_score_trans(move_score(e, start, side, d, ms[j]), max_score, wk);
                }
                assert forall|j: int| k < j < ms.len() implies (#[trigger] move_score(e, start, side, d, ms[j])).le(wk) by {
                    lemma_score_trans(move_score(e, start, side, d, ms[j]), max_score, wk);
                }
            }
        }
        decision
    }
}

impl<E: Evaluator> Decider for MaxMinDecider<E> {
    /// See [`MaxMinDecider::decide`].
    fn make_decision(&self, board: &Board, side: Side) -> (r: Option<Move>)
        ensures
            !no_finishing(board@, moves_of_side(board@, side)) ==> (r matches Some(m)
                && first_finishing(board@, moves_of_side(board@, side), m)),
            no_finishing(board@, moves_of_side(board@, side)) && moves_of_side(board@, side).len() > 0
                ==> searched_choice(self.evaluator(), board@, side, self.max_node_count() as nat, r),
    {
        self.decide(board, side)
    }
}

/// Relies on rand's `SliceRandom::shuffle` with the thread-local generator,
/// which only swaps elements: the result is a permutation of the input.
#[verifier::external_body]
fn shuffle_moves(moves: &mut Vec<Move>)
    ensures
        final(moves)@.to_multiset() == old(moves)@.to_multiset(),
{
    moves.shuffle(&mut rand::thread_rng());
}

impl RandomDecider {
    /// The random chooser.
    pub fn new() -> (r: RandomDecider) {
        RandomDecider {  }
    }
}

impl Decider for RandomDecider {
    fn make_decision(&self, board: &Board, side: Side) -> (r: Option<Move>) {
        let mut steps = board.query_possible_moves_of_side(side);
        if steps.len() == 0 {
            None
        } else {
            let ghost before = steps@;
            shuffle_moves(&mut steps);
            proof {
                before.to_multiset_ensures();
                steps@.to_multiset_ensures();
                assert(steps@.len() == before.len());
                assert(steps@.contains(steps@[0]));
                assert(steps@.to_multiset().count(steps@[0]) > 0);
                assert(before.contains(steps@[0]));
            }
            Some(steps[0])
        }
    }
}

} // verus!
