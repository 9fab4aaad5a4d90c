//! Static evaluation: scores in `[0, 1]` as exact fractions, the evaluator
//! interface, and a material-counting evaluator.
use crate::board::{Board, BoardState, Piece, PieceKind, Side};
use vstd::prelude::*;

verus! {

/// The largest denominator a score may have; it keeps the cross products of
/// two scores within `u64`.
pub const SCORE_DEN_MAX: u64 = 1000000000;

/// A score `num / den` in `[0, 1]`; higher is better for the side it is
/// computed for.
#[derive(Debug, Clone, Copy)]
pub struct Score {
    pub num: u64,
    pub den: u64,
}

impl Score {
    /// A positive denominator within bounds, and a numerator at most the denominator.
    pub open spec fn wf(self) -> bool {
        0 < self.den <= SCORE_DEN_MAX && self.num <= self.den
    }

    /// Whether `self` is a strictly greater fraction than `o`.
    pub open spec fn gt(self, o: Score) -> bool {
        self.num * o.den > o.num * self.den
    }

    /// Whether `self` is at most `o`, as fractions.
    pub open spec fn le(self, o: Score) -> bool {
        self.num * o.den <= o.num * self.den
    }

    /// Whether `self` is strictly less than `o`, as fractions.
    pub open spec fn lt(self, o: Score) -> bool {
        self.num * o.den < o.num * self.den
    }

    /// Whether the two fractions are equal.
    pub open spec fn eqv(self, o: Score) -> bool {
        self.le(o) && o.le(self)
    }

    /// The score of the opponent: one minus this score.
    pub open spec fn flip(self) -> Score {
        Score { num: (self.den - self.num) as u64, den: self.den }
    }

    /// The score `num / den`.
    pub fn new(num: u64, den: u64) -> (r: Score)
        requires
            0 < den <= SCORE_DEN_MAX,
            num <= den,
        ensures
            r == (Score { num, den }),
            r.wf(),
    {
        Score { num, den }
    }

    /// The score zero, `0 / 1`.
    pub open spec fn zero_spec() -> Score {
        Score { num: 0, den: 1 }
    }

    /// The score zero.
    pub fn zero() -> (r: Score)
        ensures
            r == Score::zero_spec(),
            r.wf(),
    {
        Score { num: 0, den: 1 }
    }

    /// The score one.
    pub fn one() -> (r: Score)
        ensures
            r == (Score { num: 1, den: 1 }),
            r.wf(),
    {
        Score { num: 1, den: 1 }
    }

    /// One minus this score.
    pub fn complement(&self) -> (r: Score)
        requires
            self.wf(),
        ensures
            r == self.flip(),
            r.wf(),
    {
        Score { num: self.den - self.num, den: self.den }
    }

    /// Whether this score is strictly greater than `o`.
    pub fn greater_than(&self, o: &Score) -> (r: bool)
        requires
            self.wf(),
            o.wf(),
        ensures
            r == self.gt(*o),
    {
        proof {
            lemma_product_fits(self.num, o.den);
            lemma_product_fits(o.num, self.den);
        }
        self.num * o.den > o.num * self.den
    }
}

/// The order of scores is transitive.
pub proof fn lemma_score_trans(a: Score, b: Score, c: Score)
    requires
        a.wf(),
        b.wf(),
        c.wf(),
    ensures
        a.le(b) && b.le(c) ==> a.le(c),
        a.lt(b) && b.le(c) ==> a.lt(c),
        a.le(b) && b.lt(c) ==> a.lt(c),
{
    let (an, ad, bn, bd, cn, cd) = (a.num as int, a.den as int, b.num as int, b.den as int, c.num as int, c.den as int);
    assert(an * bd * cd <= bn * ad * cd ==> an * bd * cd <= bn * cd * ad) by (nonlinear_arith);
    if a.le(b) {
        assert(an * bd * cd <= bn * ad * cd) by (nonlinear_arith)
            requires an * bd <= bn * ad, cd > 0;
    }
    if a.lt(b) {
        assert(an * bd * cd < bn * ad * cd) by (nonlinear_arith)
            requires an * bd < bn * ad, cd > 0;
    }
    if b.le(c) {
        assert(bn * cd * ad <= cn * bd * ad) by (nonlinear_arith)
            requires bn * cd <= cn * bd, ad > 0;
    }
    if b.lt(c) {
        assert(bn * cd * ad < cn * bd * ad) by (nonlinear_arith)
            requires bn * cd < cn * bd, ad > 0;
    }
    if a.le(b) && b.le(c) {
        assert(an * cd <= cn * ad) by (nonlinear_arith)
            requires an * bd * cd <= bn * ad * cd, bn * cd * ad <= cn * bd * ad, bd > 0;
    }
    if a.lt(b) && b.le(c) {
        assert(an * cd < cn * ad) by (nonlinear_arith)
            requires an * bd * cd < bn * ad * cd, bn * cd * ad <= cn * bd * ad, bd > 0;
    }
    if a.le(b) && b.lt(c) {
        assert(an * cd < cn * ad) by (nonlinear_arith)
            requires an * bd * cd <= bn * ad * cd, bn * cd * ad < cn * bd * ad, bd > 0;
    }
}

/// One minus a score reverses the order, and doing it twice gives the score back.
pub proof fn lemma_flip_order(a: Score, b: Score)
    requires
        a.wf(),
        b.wf(),
    ensures
        a.flip().wf(),
        a.flip().flip() == a,
        a.le(b) <==> b.flip().le(a.flip()),
        a.lt(b) <==> b.flip().lt(a.flip()),
{
    let (an, ad, bn, bd) = (a.num as int, a.den as int, b.num as int, b.den as int);
    assert((bd - bn) * ad == bd * ad - bn * ad) by (nonlinear_arith);
    assert((ad - an) * bd == ad * bd - an * bd) by (nonlinear_arith);
    assert(bd * ad == ad * bd) by (nonlinear_arith);
}

/// Every score lies between zero and one.
pub proof fn lemma_score_bounds(a: Score)
    requires
        a.wf(),
    ensures
        (Score { num: 0, den: 1 }).le(a),
        a.le(Score { num: 1, den: 1 }),
{
}

proof fn lemma_product_fits(a: u64, b: u64)
    requires
        a <= SCORE_DEN_MAX,
        b <= SCORE_DEN_MAX,
    ensures
        a * b <= SCORE_DEN_MAX * SCORE_DEN_MAX,
{
    assert(a * b <= SCORE_DEN_MAX * SCORE_DEN_MAX) by (nonlinear_arith)
        requires
            a <= SCORE_DEN_MAX,
            b <= SCORE_DEN_MAX,
    ;
}

/// Scores a board for one side.
pub trait Evaluator {
    /// The score of a board state for `side`.
    spec fn spec_evaluate(&self, b: BoardState, side: Side) -> Score;

    /// Every score lies in `[0, 1]`.
    proof fn lemma_evaluate_wf(&self, b: BoardState, side: Side)
        ensures
            self.spec_evaluate(b, side).wf(),
    ;

    /// The score of `board` for `side`.
    fn evaluate(&self, board: &Board, side: Side) -> (r: Score)
        requires
            board.wf(),
        ensures
            r == self.spec_evaluate(board@, side),
    ;
}

/// Material value of a piece: `opening` selects the table for a crowded board
/// (more than fourteen pieces), where a Cannon outweighs a Horse; with fewer
/// pieces the two swap.
pub open spec fn piece_value(opening: bool, piece: Option<Piece>) -> int {
    match piece {
        None => 0,
        Some(pc) => match pc.kind {
            PieceKind::General => 2000,
            PieceKind::Chariot => 100,
            PieceKind::Horse => if opening {
                47
            } else {
                53
            },
            PieceKind::Cannon => if opening {
                53
            } else {
                47
            },
            PieceKind::Minister => 30,
            PieceKind::Advisor => 30,
            PieceKind::CentralPawn => 25,
            PieceKind::RiverPawn => 25,
            PieceKind::FilePawn => 20,
            PieceKind::BasePawn => 15,
        },
    }
}

/// Whether the cell's piece is counted: any piece when `side` is `None`, else
/// only pieces of that side.
pub open spec fn counted(b: BoardState, p: (int, int), side: Option<Side>) -> bool {
    match side {
        None => true,
        Some(s) => b.occupied_by(p, s),
    }
}

/// Material of file `x`, ranks `0..yend`.
pub open spec fn material_col(b: BoardState, opening: bool, side: Option<Side>, x: int, yend: int) -> int
    decreases yend,
{
    if yend <= 0 {
        0
    } else {
        material_col(b, opening, side, x, yend - 1) + if counted(b, (x, yend - 1), side) {
            piece_value(opening, b.at((x, yend - 1)))
        } else {
            0
        }
    }
}

/// Material of files `0..xend`.
pub open spec fn material(b: BoardState, opening: bool, side: Option<Side>, xend: int) -> int
    decreases xend,
{
    if xend <= 0 {
        0
    } else {
        material(b, opening, side, xend - 1) + material_col(b, opening, side, xend - 1, 10)
    }
}

/// The material evaluation: the share of all material on the board that
/// belongs to `side`; one half on an empty board.
pub open spec fn material_share(b: BoardState, side: Side) -> Score {
    let opening = b.piece_count() > 14;
    let total = material(b, opening, None, 9);
    let mine = material(b, opening, Some(side), 9);
    if total == 0 {
        Score { num: 1, den: 2 }
    } else {
        Score { num: mine as u64, den: total as u64 }
    }
}

/// Evaluates a board by material.
#[derive(Debug, Clone)]
pub struct SimpleEvaluator {}

impl SimpleEvaluator {
    /// The material evaluator.
    pub fn new() -> (r: SimpleEvaluator) {
        SimpleEvaluator {  }
    }

    /// Value of a piece on a crowded board.
    pub fn evaluate_single_piece_1(piece: Option<Piece>) -> (r: i32)
        ensures
            r == piece_value(true, piece),
    {
        match piece {
            Some(piece) => match piece.kind {
                PieceKind::General => 2000,
                PieceKind::Chariot => 100,
                PieceKind::Horse => 47,
                PieceKind::Cannon => 53,
                PieceKind::Minister => 30,
                PieceKind::Advisor => 30,
                PieceKind::CentralPawn => 25,
                PieceKind::RiverPawn => 25,
                PieceKind::FilePawn => 20,
                PieceKind::BasePawn => 15,
            },
            None => 0,
        }
    }

    /// Value of a piece in the endgame.
    pub fn evaluate_single_piece_2(piece: Option<Piece>) -> (r: i32)
        ensures
            r == piece_value(false, piece),
    {
        match piece {
            Some(piece) => match piece.kind {
                PieceKind::General => 2000,
                PieceKind::Chariot => 100,
                PieceKind::Horse => 53,
                PieceKind::Cannon => 47,
                PieceKind::Minister => 30,
                PieceKind::Advisor => 30,
                PieceKind::CentralPawn => 25,
                PieceKind::RiverPawn => 25,
                PieceKind::FilePawn => 20,
                PieceKind::BasePawn => 15,
            },
            None => 0,
        }
    }

    /// The material share of `side`.
    pub fn material_score(board: &Board, side: Side) -> (r: Score)
        requires
            board.wf(),
        ensures
            r == material_share(board@, side),
            r.wf(),
    {
        let opening = board.get_piece_count() > 14;
        let ghost b = board@;
        let mut sum: i32 = 0;
        let mut side_sum: i32 = 0;
        let mut x: i32 = 0;
        while x < 9
            invariant
                0 <= x <= 9,
                b == board@,
                b.wf(),
                opening == (b.piece_count() > 14),
                sum == material(b, opening, None, x as int),
                side_sum == material(b, opening, Some(side), x as int),
                0 <= side_sum <= sum <= 20000 * x,
            decreases 9 - x,
        {
            let mut y: i32 = 0;
            while y < 10
                invariant
                    0 <= x < 9,
                    0 <= y <= 10,
                    b == board@,
                    b.wf(),
                    sum == material(b, opening, None, x as int) + material_col(
                        b,
                        opening,
                        None,
                        x as int,
                        y as int,
                    ),
                    side_sum == material(b, opening, Some(side), x as int) + material_col(
                        b,
                        opening,
                        Some(side),
                        x as int,
                        y as int,
                    ),
                    0 <= side_sum <= sum <= 20000 * x + 2000 * y,
                decreases 10 - y,
            {
                let piece = board.get_piece_at((x, y));
                let score = if opening {
                    SimpleEvaluator::evaluate_single_piece_1(piece)
                } else {
                    SimpleEvaluator::evaluate_single_piece_2(piece)
                };
                sum = sum + score;
                if board.crossing_occupied_by_side((x, y), side) {
                    side_sum = side_sum + score;
                }
                y = y + 1;
            }
            x = x + 1;
        }
        if sum == 0 {
            Score::new(1, 2)
        } else {
            Score::new(side_sum as u64, sum as u64)
        }
    }
}

/// Material of one file: nonnegative, at most 2000 a cell, and a side's share
/// at most the whole.
pub proof fn lemma_material_col_bounds(b: BoardState, opening: bool, side: Side, x: int, yend: int)
    requires
        0 <= yend,
    ensures
        0 <= material_col(b, opening, Some(side), x, yend) <= material_col(b, opening, None, x, yend)
            <= 2000 * yend,
    decreases yend,
{
    if yend > 0 {
        lemma_material_col_bounds(b, opening, side, x, yend - 1);
    }
}

/// Material of the board: nonnegative, at most 2000 a cell, and a side's share
/// at most the whole.
pub proof fn lemma_material_bounds(b: BoardState, opening: bool, side: Side, xend: int)
    requires
        0 <= xend,
    ensures
        0 <= material(b, opening, Some(side), xend) <= material(b, opening, None, xend) <= 20000
            * xend,
    decreases xend,
{
    if xend > 0 {
        lemma_material_bounds(b, opening, side, xend - 1);
        lemma_material_col_bounds(b, opening, side, xend - 1, 10);
    }
}

impl Evaluator for SimpleEvaluator {
    open spec fn spec_evaluate(&self, b: BoardState, side: Side) -> Score {
        material_share(b, side)
    }

    proof fn lemma_evaluate_wf(&self, b: BoardState, side: Side) {
        lemma_material_bounds(b, b.piece_count() > 14, side, 9);
    }

    fn evaluate(&self, board: &Board, side: Side) -> (r: Score) {
        SimpleEvaluator::material_score(board, side)
    }
}

} // verus!
