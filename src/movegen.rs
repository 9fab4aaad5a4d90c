//! Move generation: the movement rule of each piece kind, the repetition
//! filter, and the moves of a whole side.
use crate::board::{in_board, ip, opponent, Board, BoardState, Move, Piece, PieceKind, Side, UnmoveRecord};
use vstd::prelude::*;

verus! {

/// The area a destination must lie in.
#[derive(Debug, Clone, Copy, PartialEq, Eq, Structural)]
pub enum Region {
    /// The whole grid.
    Grid,
    /// The mover's three-by-three palace.
    Palace,
    /// The mover's half of the grid, up to the river.
    Half,
}

/// Whether a cell lies in `region` of `side`.
pub open spec fn in_region(side: Side, region: Region, p: (int, int)) -> bool {
    match region {
        Region::Grid => in_board(p),
        Region::Palace => 3 <= p.0 <= 5 && match side {
            Side::Red => 0 <= p.1 <= 2,
            Side::Black => 7 <= p.1 <= 9,
        },
        Region::Half => 0 <= p.0 <= 8 && match side {
            Side::Red => 0 <= p.1 <= 4,
            Side::Black => 5 <= p.1 <= 9,
        },
    }
}

/// The rank step of a forward move.
pub open spec fn forward(side: Side) -> int {
    match side {
        Side::Red => 1,
        Side::Black => -1,
    }
}

/// The first rank past the river, seen from `side`.
pub open spec fn river_rank(side: Side) -> int {
    match side {
        Side::Red => 5,
        Side::Black => 4,
    }
}

/// The opponent's back rank, seen from `side`.
pub open spec fn far_rank(side: Side) -> int {
    match side {
        Side::Red => 9,
        Side::Black => 0,
    }
}

/// What stands on `to` after `pc` steps there: pawns promote on crossing the
/// river and on reaching the far rank; every other piece stays as it is.
pub open spec fn after_step(pc: Piece, to: (int, int)) -> Piece {
    match pc.kind {
        PieceKind::CentralPawn | PieceKind::FilePawn => if to.1 == river_rank(pc.side) {
            Piece { side: pc.side, kind: PieceKind::RiverPawn }
        } else {
            pc
        },
        PieceKind::RiverPawn => if to.1 == far_rank(pc.side) {
            Piece { side: pc.side, kind: PieceKind::BasePawn }
        } else {
            pc
        },
        _ => pc,
    }
}

/// The cell at offset `(dx, dy)` from `p`.
pub open spec fn shift(p: (i32, i32), dx: int, dy: int) -> (i32, i32) {
    ((p.0 + dx) as i32, (p.1 + dy) as i32)
}

/// The moves made from the candidates `cands` that pass `ok`, in order.
pub open spec fn select<T>(cands: Seq<T>, ok: spec_fn(T) -> bool, mk: spec_fn(T) -> Move) -> Seq<
    Move,
>
    decreases cands.len(),
{
    if cands.len() == 0 {
        Seq::empty()
    } else {
        let rest = select(cands.drop_last(), ok, mk);
        if ok(cands.last()) {
            rest.push(mk(cands.last()))
        } else {
            rest
        }
    }
}

/// The move of the piece `pc` from `from` to a destination.
pub open spec fn step_to(from: (i32, i32), pc: Piece) -> spec_fn((i32, i32)) -> Move {
    |t: (i32, i32)| Move { pos_from: from, pos_to: t, turn_into: Some(after_step(pc, ip(t))) }
}

/// The move of the piece `pc` from `from` to the destination of a jump.
pub open spec fn jump_to(from: (i32, i32), pc: Piece) -> spec_fn(((i32, i32), (i32, i32))) -> Move {
    |c: ((i32, i32), (i32, i32))| Move { pos_from: from, pos_to: c.0, turn_into: Some(pc) }
}

/// A step may go to a cell of `region` that holds no piece of the mover.
pub open spec fn step_ok(b: BoardState, side: Side, region: Region) -> spec_fn((i32, i32)) -> bool {
    |t: (i32, i32)| in_region(side, region, ip(t)) && !b.occupied_by(ip(t), side)
}

/// A jump `(destination, leg)` may go to a cell of `region` that holds no
/// piece of the mover, when its leg cell is empty.
pub open spec fn jump_ok(b: BoardState, side: Side, region: Region) -> spec_fn(
    ((i32, i32), (i32, i32)),
) -> bool {
    |c: ((i32, i32), (i32, i32))|
        in_region(side, region, ip(c.0)) && !b.occupied_by(ip(c.0), side) && !b.occupied(ip(c.1))
}

/// A straight move may go to an empty cell with nothing in between, or capture
/// an enemy piece when the cells from `from` to it, both included, hold
/// `capture_count` pieces.
pub open spec fn line_ok(b: BoardState, from: (i32, i32), side: Side, capture_count: nat) -> spec_fn(
    (i32, i32),
) -> bool {
    |t: (i32, i32)|
        !b.occupied_by(ip(t), side) && if b.occupied_by(ip(t), opponent(side)) {
            b.count_between(ip(from), ip(t)) == capture_count
        } else {
            b.count_between(ip(from), ip(t)) == 1
        }
}

/// A General may fly to the enemy General on its own file when nothing stands between them.
pub open spec fn fly_ok(b: BoardState, from: (i32, i32), side: Side) -> spec_fn((i32, i32)) -> bool {
    |t: (i32, i32)|
        b.at(ip(t)) == Some(Piece { side: opponent(side), kind: PieceKind::General })
            && b.count_between(ip(from), ip(t)) == 2
}

/// The orthogonal neighbours, in the order right, left, up, down.
pub open spec fn orthogonal_steps(from: (i32, i32)) -> Seq<(i32, i32)> {
    seq![shift(from, 1, 0), shift(from, -1, 0), shift(from, 0, 1), shift(from, 0, -1)]
}

/// The diagonal neighbours.
pub open spec fn diagonal_steps(from: (i32, i32)) -> Seq<(i32, i32)> {
    seq![shift(from, 1, 1), shift(from, 1, -1), shift(from, -1, 1), shift(from, -1, -1)]
}

/// The cells of the General's own file, rank by rank: a flying capture may reach any of them.
pub open spec fn fly_targets(from: (i32, i32)) -> Seq<(i32, i32)> {
    Seq::new(10, |y: int| (from.0, y as i32))
}

/// The cells of `from`'s rank, then of its file.
pub open spec fn line_targets(from: (i32, i32)) -> Seq<(i32, i32)> {
    Seq::new(
        19,
        |i: int|
            if i < 9 {
                (i as i32, from.1)
            } else {
                (from.0, (i - 9) as i32)
            },
    )
}

/// The eight Horse jumps, each with its leg cell.
pub open spec fn horse_jumps(from: (i32, i32)) -> Seq<((i32, i32), (i32, i32))> {
    seq![
        (shift(from, 2, 1), shift(from, 1, 0)),
        (shift(from, 2, -1), shift(from, 1, 0)),
        (shift(from, -2, 1), shift(from, -1, 0)),
        (shift(from, -2, -1), shift(from, -1, 0)),
        (shift(from, 1, 2), shift(from, 0, 1)),
        (shift(from, 1, -2), shift(from, 0, -1)),
        (shift(from, -1, 2), shift(from, 0, 1)),
        (shift(from, -1, -2), shift(from, 0, -1)),
    ]
}

/// The four Minister jumps, each with its eye cell.
pub open spec fn minister_jumps(from: (i32, i32)) -> Seq<((i32, i32), (i32, i32))> {
    seq![
        (shift(from, 2, 2), shift(from, 1, 1)),
        (shift(from, 2, -2), shift(from, 1, -1)),
        (shift(from, -2, 2), shift(from, -1, 1)),
        (shift(from, -2, -2), shift(from, -1, -1)),
    ]
}

/// The steps of a pawn: forward for a Central or File pawn; sideways and
/// forward for a River pawn; sideways for a Base pawn.
pub open spec fn pawn_steps(from: (i32, i32), pc: Piece) -> Seq<(i32, i32)> {
    match pc.kind {
        PieceKind::RiverPawn => seq![
            shift(from, 1, 0),
            shift(from, -1, 0),
            shift(from, 0, forward(pc.side)),
        ],
        PieceKind::BasePawn => seq![shift(from, 1, 0), shift(from, -1, 0)],
        _ => seq![shift(from, 0, forward(pc.side))],
    }
}

/// The moves of the piece at `from` by its kind's rule, before the repetition filter.
pub open spec fn raw_moves(b: BoardState, from: (i32, i32)) -> Seq<Move> {
    match b.at(ip(from)) {
        None => Seq::empty(),
        Some(pc) => {
            let side = pc.side;
            let mk = step_to(from, pc);
            match pc.kind {
                PieceKind::General => select(
                    orthogonal_steps(from),
                    step_ok(b, side, Region::Palace),
                    mk,
                ) + select(fly_targets(from), fly_ok(b, from, side), mk),
                PieceKind::Chariot => select(line_targets(from), line_ok(b, from, side, 2), mk),
                PieceKind::Horse => select(
                    horse_jumps(from),
                    jump_ok(b, side, Region::Grid),
                    jump_to(from, pc),
                ),
                PieceKind::Cannon => select(line_targets(from), line_ok(b, from, side, 3), mk),
                PieceKind::Minister => select(
                    minister_jumps(from),
                    jump_ok(b, side, Region::Half),
                    jump_to(from, pc),
                ),
                PieceKind::Advisor => select(
                    diagonal_steps(from),
                    step_ok(b, side, Region::Palace),
                    mk,
                ),
                _ => select(pawn_steps(from, pc), step_ok(b, side, Region::Grid), mk),
            }
        },
    }
}

/// A move survives the repetition filter unless it leaves the cell that the
/// cycle's first move left, or enters the cell that it entered.
pub open spec fn off_cycle(r: UnmoveRecord) -> spec_fn(Move) -> bool {
    |m: Move| m.pos_from != r.pos_0 && m.pos_to != r.pos_1
}

/// The identity on moves.
pub open spec fn same_move() -> spec_fn(Move) -> Move {
    |m: Move| m
}

/// The moves of the piece at `from`: its kind's moves, less those that the
/// repetition filter drops when the last four moves form a cycle.
pub open spec fn moves_from(b: BoardState, from: (i32, i32)) -> Seq<Move> {
    if b.looped() {
        select(raw_moves(b, from), off_cycle(b.history[b.history.len() - 4]), same_move())
    } else {
        raw_moves(b, from)
    }
}

/// The moves of the piece at `p` when it belongs to `side`: filtered, or by the kind's rule alone.
pub open spec fn cell_moves(b: BoardState, p: (i32, i32), side: Side, filtered: bool) -> Seq<Move> {
    if b.occupied_by(ip(p), side) {
        if filtered {
            moves_from(b, p)
        } else {
            raw_moves(b, p)
        }
    } else {
        Seq::empty()
    }
}

/// The moves of `side` from file `x`, ranks `0..yend`, in rank order.
pub open spec fn column_moves(b: BoardState, x: int, yend: int, side: Side, filtered: bool) -> Seq<
    Move,
>
    decreases yend,
{
    if yend <= 0 {
        Seq::empty()
    } else {
        column_moves(b, x, yend - 1, side, filtered) + cell_moves(
            b,
            (x as i32, (yend - 1) as i32),
            side,
            filtered,
        )
    }
}

/// The moves of `side` from files `0..xend`, file by file.
pub open spec fn side_moves(b: BoardState, xend: int, side: Side, filtered: bool) -> Seq<Move>
    decreases xend,
{
    if xend <= 0 {
        Seq::empty()
    } else {
        side_moves(b, xend - 1, side, filtered) + column_moves(b, xend - 1, 10, side, filtered)
    }
}

/// All moves of `side`, in board-scan order (file by file, rank by rank).
pub open spec fn moves_of_side(b: BoardState, side: Side) -> Seq<Move> {
    side_moves(b, 9, side, true)
}

/// All moves of `side` by the kinds' rules, with no repetition filter.
pub open spec fn unfiltered_moves_of_side(b: BoardState, side: Side) -> Seq<Move> {
    side_moves(b, 9, side, false)
}

/// Whether a move lands on the General of `side`.
pub open spec fn hits_general(b: BoardState, m: Move, side: Side) -> bool {
    b.at(ip(m.pos_to)) == Some(Piece { side, kind: PieceKind::General })
}

/// Every move leaves `from` and ends on the grid.
pub open spec fn placed(ms: Seq<Move>, from: (i32, i32)) -> bool {
    forall|i: int|
        0 <= i < ms.len() ==> (#[trigger] ms[i]).pos_from == from && in_board(ip(ms[i].pos_to))
}

/// Every move starts and ends on the grid.
pub open spec fn on_grid(ms: Seq<Move>) -> bool {
    forall|i: int|
        0 <= i < ms.len() ==> in_board(ip((#[trigger] ms[i]).pos_from)) && in_board(
            ip(ms[i].pos_to),
        )
}

/// Selecting from one more candidate adds its move when it passes.
pub proof fn lemma_select_take<T>(cands: Seq<T>, ok: spec_fn(T) -> bool, mk: spec_fn(T) -> Move, i: int)
    requires
        0 <= i < cands.len(),
    ensures
        select(cands.take(i + 1), ok, mk) == if ok(cands[i]) {
            select(cands.take(i), ok, mk).push(mk(cands[i]))
        } else {
            select(cands.take(i), ok, mk)
        },
{
    assert(cands.take(i + 1).drop_last() =~= cands.take(i));
    assert(cands.take(i + 1).last() == cands[i]);
}

/// A move is selected exactly when some passing candidate makes it.
pub proof fn lemma_select_contains<T>(
    cands: Seq<T>,
    ok: spec_fn(T) -> bool,
    mk: spec_fn(T) -> Move,
    m: Move,
)
    ensures
        select(cands, ok, mk).contains(m) <==> exists|i: int|
            0 <= i < cands.len() && ok(#[trigger] cands[i]) && mk(cands[i]) == m,
    decreases cands.len(),
{
    if cands.len() > 0 {
        let init = cands.drop_last();
        let last = cands.last();
        let rest = select(init, ok, mk);
        lemma_select_contains(init, ok, mk, m);
        if ok(last) {
            vstd::seq_lib::lemma_seq_contains_after_push(rest, mk(last), m);
        }
        if exists|i: int| 0 <= i < cands.len() && ok(#[trigger] cands[i]) && mk(cands[i]) == m {
            let i = choose|i: int| 0 <= i < cands.len() && ok(#[trigger] cands[i]) && mk(cands[i]) == m;
            if i < init.len() {
                assert(init[i] == cands[i]);
            }
        }
        if exists|i: int| 0 <= i < init.len() && ok(#[trigger] init[i]) && mk(init[i]) == m {
            let i = choose|i: int| 0 <= i < init.len() && ok(#[trigger] init[i]) && mk(init[i]) == m;
            assert(cands[i] == init[i]);
        }
    }
}

/// A move of a concatenation is a move of one of its parts.
pub proof fn lemma_concat_contains(a: Seq<Move>, b: Seq<Move>, m: Move)
    ensures
        (a.contains(m) || b.contains(m)) <==> (a + b).contains(m),
{
    if a.contains(m) {
        let i = choose|i: int| 0 <= i < a.len() && a[i] == m;
        assert((a + b)[i] == m);
    } else if b.contains(m) {
        let i = choose|i: int| 0 <= i < b.len() && b[i] == m;
        assert((a + b)[a.len() + i] == m);
    }
    if (a + b).contains(m) {
        let i = choose|i: int| 0 <= i < (a + b).len() && (a + b)[i] == m;
        if i < a.len() {
            assert(a[i] == m);
        } else {
            assert(b[i - a.len()] == m);
        }
    }
}

/// A move of the piece on rank `y` of file `x` is among the moves of that file.
pub proof fn lemma_column_moves_contains(
    b: BoardState,
    x: int,
    yend: int,
    side: Side,
    filtered: bool,
    y: int,
    m: Move,
)
    requires
        0 <= y < yend,
        cell_moves(b, (x as i32, y as i32), side, filtered).contains(m),
    ensures
        column_moves(b, x, yend, side, filtered).contains(m),
    decreases yend,
{
    let prev = column_moves(b, x, yend - 1, side, filtered);
    let last = cell_moves(b, (x as i32, (yend - 1) as i32), side, filtered);
    if y < yend - 1 {
        lemma_column_moves_contains(b, x, yend - 1, side, filtered, y, m);
    }
    lemma_concat_contains(prev, last, m);
}

/// A move of the piece at `(x, y)` is among the moves of its side.
pub proof fn lemma_side_moves_contains(
    b: BoardState,
    xend: int,
    side: Side,
    filtered: bool,
    x: int,
    y: int,
    m: Move,
)
    requires
        0 <= x < xend,
        0 <= y < 10,
        cell_moves(b, (x as i32, y as i32), side, filtered).contains(m),
    ensures
        side_moves(b, xend, side, filtered).contains(m),
    decreases xend,
{
    lemma_column_moves_contains(b, x, 10, side, filtered, y, m);
    if x < xend - 1 {
        lemma_side_moves_contains(b, xend - 1, side, filtered, x, y, m);
    }
    lemma_concat_contains(
        side_moves(b, xend - 1, side, filtered),
        column_moves(b, xend - 1, 10, side, filtered),
        m,
    );
}

/// Every move made from candidates by a maker that starts at `from` starts at `from`.
proof fn lemma_select_origin<T>(cands: Seq<T>, ok: spec_fn(T) -> bool, mk: spec_fn(T) -> Move, from: (i32, i32), m: Move)
    requires
        forall|c: T| (#[trigger] mk(c)).pos_from == from,
        select(cands, ok, mk).contains(m),
    ensures
        m.pos_from == from,
{
    lemma_select_contains(cands, ok, mk, m);
    let i = choose|i: int| 0 <= i < cands.len() && ok(#[trigger] cands[i]) && mk(cands[i]) == m;
    assert(mk(cands[i]).pos_from == from);
}

/// Every move of the piece at `p` starts at `p`.
pub proof fn lemma_moves_from_origin(b: BoardState, p: (i32, i32), m: Move)
    requires
        moves_from(b, p).contains(m),
    ensures
        m.pos_from == p,
{
    let raw = raw_moves(b, p);
    if b.looped() {
        let r = b.history[b.history.len() - 4];
        lemma_select_contains(raw, off_cycle(r), same_move(), m);
        let i = choose|i: int| 0 <= i < raw.len() && off_cycle(r)(#[trigger] raw[i]) && same_move()(raw[i]) == m;
        assert(raw[i] == m);
    }
    assert(raw.contains(m));
    if let Some(pc) = b.at(ip(p)) {
        let mk = step_to(p, pc);
        assert(forall|c: (i32, i32)| (#[trigger] mk(c)).pos_from == p);
        assert(forall|c: ((i32, i32), (i32, i32))| (#[trigger] jump_to(p, pc)(c)).pos_from == p);
        match pc.kind {
            PieceKind::General => {
                let a = select(orthogonal_steps(p), step_ok(b, pc.side, Region::Palace), mk);
                let f = select(fly_targets(p), fly_ok(b, p, pc.side), mk);
                lemma_concat_contains(a, f, m);
                if a.contains(m) {
                    lemma_select_origin(orthogonal_steps(p), step_ok(b, pc.side, Region::Palace), mk, p, m);
                } else {
                    lemma_select_origin(fly_targets(p), fly_ok(b, p, pc.side), mk, p, m);
                }
            },
            PieceKind::Chariot => lemma_select_origin(line_targets(p), line_ok(b, p, pc.side, 2), mk, p, m),
            PieceKind::Horse => lemma_select_origin(horse_jumps(p), jump_ok(b, pc.side, Region::Grid), jump_to(p, pc), p, m),
            PieceKind::Cannon => lemma_select_origin(line_targets(p), line_ok(b, p, pc.side, 3), mk, p, m),
            PieceKind::Minister => lemma_select_origin(minister_jumps(p), jump_ok(b, pc.side, Region::Half), jump_to(p, pc), p, m),
            PieceKind::Advisor => lemma_select_origin(diagonal_steps(p), step_ok(b, pc.side, Region::Palace), mk, p, m),
            _ => lemma_select_origin(pawn_steps(p, pc), step_ok(b, pc.side, Region::Grid), mk, p, m),
        }
    }
}

/// A move of file `x`'s ranks `0..yend` comes from one of those cells.
proof fn lemma_column_moves_origin(b: BoardState, x: int, yend: int, side: Side, m: Move) -> (y: int)
    requires
        column_moves(b, x, yend, side, true).contains(m),
    ensures
        0 <= y < yend,
        cell_moves(b, (x as i32, y as i32), side, true).contains(m),
    decreases yend,
{
    let prev = column_moves(b, x, yend - 1, side, true);
    let last = cell_moves(b, (x as i32, (yend - 1) as i32), side, true);
    lemma_concat_contains(prev, last, m);
    if prev.contains(m) {
        lemma_column_moves_origin(b, x, yend - 1, side, m)
    } else {
        yend - 1
    }
}

/// A move of files `0..xend` comes from a cell of one of those files.
proof fn lemma_side_moves_origin(b: BoardState, xend: int, side: Side, m: Move) -> (p: (int, int))
    requires
        side_moves(b, xend, side, true).contains(m),
    ensures
        0 <= p.0 < xend,
        0 <= p.1 < 10,
        cell_moves(b, (p.0 as i32, p.1 as i32), side, true).contains(m),
    decreases xend,
{
    let prev = side_moves(b, xend - 1, side, true);
    let col = column_moves(b, xend - 1, 10, side, true);
    lemma_concat_contains(prev, col, m);
    if prev.contains(m) {
        lemma_side_moves_origin(b, xend - 1, side, m)
    } else {
        let y = lemma_column_moves_origin(b, xend - 1, 10, side, m);
        (xend - 1, y)
    }
}

/// Every move of a side starts on a cell of the grid and is among the moves of
/// the piece there, so `apply_move` accepts it.
pub proof fn lemma_side_move_is_legal(b: BoardState, side: Side, m: Move)
    requires
        moves_of_side(b, side).contains(m),
    ensures
        in_board(ip(m.pos_from)),
        moves_from(b, m.pos_from).contains(m),
{
    let p = lemma_side_moves_origin(b, 9, side, m);
    let q = (p.0 as i32, p.1 as i32);
    assert(moves_from(b, q).contains(m));
    lemma_moves_from_origin(b, q, m);
}

/// Flying capture: a General that faces the enemy General on its own file,
/// on any rank, with nothing between them, has the capture among its side's
/// moves (when the last four moves are not a cycle), and playing it ends the
/// game with the mover as winner.
pub proof fn lemma_flying_general_capture(b: BoardState, p: (i32, i32), q: (i32, i32), side: Side)
    requires
        b.wf(),
        in_board(ip(p)),
        in_board(ip(q)),
        p.0 == q.0,
        b.at(ip(p)) == Some(Piece { side, kind: PieceKind::General }),
        b.at(ip(q)) == Some(Piece { side: opponent(side), kind: PieceKind::General }),
        b.count_between(ip(p), ip(q)) == 2,
        !b.looped(),
    ensures
        moves_of_side(b, side).contains(
            (Move { pos_from: p, pos_to: q, turn_into: Some(Piece { side, kind: PieceKind::General }) }),
        ),
        b.apply(
            (Move { pos_from: p, pos_to: q, turn_into: Some(Piece { side, kind: PieceKind::General }) }),
        ).finished,
        b.apply(
            (Move { pos_from: p, pos_to: q, turn_into: Some(Piece { side, kind: PieceKind::General }) }),
        ).winner == Some(side),
{
    let pc = Piece { side, kind: PieceKind::General };
    let m = Move { pos_from: p, pos_to: q, turn_into: Some(pc) };
    let fly = fly_targets(p);
    let ok = fly_ok(b, p, side);
    let mk = step_to(p, pc);
    let k: int = q.1 as int;
    assert(fly[k] == q);
    assert(ok(fly[k]) && mk(fly[k]) == m);
    lemma_select_contains(fly, ok, mk, m);
    lemma_concat_contains(select(orthogonal_steps(p), step_ok(b, side, Region::Palace), mk), select(fly, ok, mk), m);
    assert(raw_moves(b, p).contains(m));
    assert(cell_moves(b, ((p.0 as int) as i32, (p.1 as int) as i32), side, true).contains(m));
    lemma_side_moves_contains(b, 9, side, true, p.0 as int, p.1 as int, m);
}

/// Leg blocking: putting a piece on an empty leg cell next to a Horse removes
/// exactly the jumps that pass over that cell; whether each other jump is
/// allowed does not change.
pub proof fn lemma_horse_leg_blocking(b: BoardState, p: (i32, i32), pc: Piece, leg: (i32, i32), blocker: Piece)
    requires
        b.wf(),
        in_board(ip(p)),
        in_board(ip(leg)),
        b.at(ip(p)) == Some(pc),
        pc.kind == PieceKind::Horse,
        !b.occupied(ip(leg)),
        leg == shift(p, 1, 0) || leg == shift(p, -1, 0) || leg == shift(p, 0, 1) || leg == shift(p, 0, -1),
    ensures
        forall|i: int|
            0 <= i < 8 ==> (raw_moves(
                BoardState { cells: b.cells.insert(ip(leg), Some(blocker)), ..b },
                p,
            ).contains(#[trigger] jump_to(p, pc)(horse_jumps(p)[i])) <==> (raw_moves(b, p).contains(
                jump_to(p, pc)(horse_jumps(p)[i]),
            ) && horse_jumps(p)[i].1 != leg)),
{
    let b2 = BoardState { cells: b.cells.insert(ip(leg), Some(blocker)), ..b };
    let jumps = horse_jumps(p);
    let mk = jump_to(p, pc);
    let ok1 = jump_ok(b, pc.side, Region::Grid);
    let ok2 = jump_ok(b2, pc.side, Region::Grid);
    assert(b2.at(ip(p)) == Some(pc));
    assert forall|i: int| 0 <= i < 8 implies (raw_moves(b2, p).contains(
        #[trigger] mk(jumps[i]),
    ) <==> (raw_moves(b, p).contains(mk(jumps[i])) && jumps[i].1 != leg)) by {
        let m = mk(jumps[i]);
        lemma_select_contains(jumps, ok1, mk, m);
        lemma_select_contains(jumps, ok2, mk, m);
        assert forall|k: int| 0 <= k < 8 && #[trigger] mk(jumps[k]) == m implies k == i by {
            assert(jumps[k].0 == jumps[i].0);
        }
        assert(ok2(jumps[i]) == (ok1(jumps[i]) && jumps[i].1 != leg)) by {
            assert(ip(jumps[i].0) != ip(leg));
        }
    }
}

/// Cannon capture arity: a Cannon captures an enemy piece on its rank or file
/// only when the cells from the Cannon to the target, both included, hold three
/// pieces (the two ends and exactly one screen); it moves to an empty cell
/// there only when the way is clear. Stated for a board whose last four moves
/// are not a cycle.
pub proof fn lemma_cannon_capture_arity(b: BoardState, p: (i32, i32), pc: Piece, t: (i32, i32))
    requires
        b.wf(),
        in_board(ip(p)),
        in_board(ip(t)),
        t != p,
        t.0 == p.0 || t.1 == p.1,
        b.at(ip(p)) == Some(pc),
        pc.kind == PieceKind::Cannon,
        !b.looped(),
    ensures
        b.occupied_by(ip(t), opponent(pc.side)) ==> (moves_from(b, p).contains(
            (Move { pos_from: p, pos_to: t, turn_into: Some(pc) }),
        ) <==> b.count_between(ip(p), ip(t)) == 3),
        !b.occupied(ip(t)) ==> (moves_from(b, p).contains(
            (Move { pos_from: p, pos_to: t, turn_into: Some(pc) }),
        ) <==> b.count_between(ip(p), ip(t)) == 1),
{
    let m = Move { pos_from: p, pos_to: t, turn_into: Some(pc) };
    let line = line_targets(p);
    let ok = line_ok(b, p, pc.side, 3);
    let mk = step_to(p, pc);
    let i: int = if t.1 == p.1 {
        t.0 as int
    } else {
        9 + t.1
    };
    assert(line[i] == t);
    lemma_select_contains(line, ok, mk, m);
    assert forall|k: int| 0 <= k < line.len() && #[trigger] mk(line[k]) == m implies line[k] == t by {}
    if ok(t) {
        assert(mk(line[i]) == m);
    }
}

/// Whether a cell lies in a region of the mover.
pub fn within_region(side: Side, region: Region, p: (i32, i32)) -> (r: bool)
    ensures
        r == in_region(side, region, ip(p)),
{
    match region {
        Region::Grid => Board::position_within_board(p),
        Region::Palace => match side {
            Side::Red => Board::position_within_range(p, (3, 0), (5, 2)),
            Side::Black => Board::position_within_range(p, (3, 7), (5, 9)),
        },
        Region::Half => match side {
            Side::Red => Board::position_within_range(p, (0, 0), (8, 4)),
            Side::Black => Board::position_within_range(p, (0, 5), (8, 9)),
        },
    }
}

/// What stands on `to` after `pc` steps there.
pub fn promoted(pc: Piece, to: (i32, i32)) -> (r: Piece)
    ensures
        r == after_step(pc, ip(to)),
{
    match pc.kind {
        PieceKind::CentralPawn | PieceKind::FilePawn => {
            let river: i32 = match pc.side {
                Side::Red => 5,
                Side::Black => 4,
            };
            if to.1 == river {
                Piece::new(PieceKind::RiverPawn, pc.side)
            } else {
                pc
            }
        },
        PieceKind::RiverPawn => {
            let far: i32 = match pc.side {
                Side::Red => 9,
                Side::Black => 0,
            };
            if to.1 == far {
                Piece::new(PieceKind::BasePawn, pc.side)
            } else {
                pc
            }
        },
        _ => pc,
    }
}

/// Whether two cells are the same.
fn same_cell(a: (i32, i32), b: (i32, i32)) -> (r: bool)
    ensures
        r == (a == b),
{
    a.0 == b.0 && a.1 == b.1
}

/// Whether two moves are the same.
fn same_move_value(a: &Move, b: &Move) -> (r: bool)
    ensures
        r == (*a == *b),
{
    let same_piece = match (a.turn_into, b.turn_into) {
        (None, None) => true,
        (Some(p), Some(q)) => p == q,
        _ => false,
    };
    same_cell(a.pos_from, b.pos_from) && same_cell(a.pos_to, b.pos_to) && same_piece
}

impl Board {
    /// Appends the steps of `pc` from `from` to those candidates that lie in
    /// `region` and hold no piece of its side.
    fn push_steps(
        &self,
        ret: &mut Vec<Move>,
        from: (i32, i32),
        pc: Piece,
        cands: &Vec<(i32, i32)>,
        region: Region,
    )
        requires
            self.wf(),
            placed(old(ret)@, from),
        ensures
            final(ret)@ == old(ret)@ + select(cands@, step_ok(self@, pc.side, region), step_to(from, pc)),
            placed(final(ret)@, from),
    {
        let ghost base = ret@;
        let ghost ok = step_ok(self@, pc.side, region);
        let ghost mk = step_to(from, pc);
        let mut i: usize = 0;
        while i < cands.len()
            invariant
                i <= cands.len(),
                ok == step_ok(self@, pc.side, region),
                mk == step_to(from, pc),
                ret@ == base + select(cands@.take(i as int), ok, mk),
                placed(ret@, from),
            decreases cands.len() - i,
        {
            let t = cands[i];
            proof {
                lemma_select_take(cands@, ok, mk, i as int);
            }
            if within_region(pc.side, region, t) && !self.crossing_occupied_by_side(t, pc.side) {
                let m = Move::new(from, t, Some(promoted(pc, t)));
                ret.push(m);
                assert(ret@ =~= base + select(cands@.take(i as int), ok, mk).push(m));
            }
            i = i + 1;
        }
        assert(cands@.take(cands@.len() as int) =~= cands@);
    }

    /// Appends the jumps of `pc` from `from` whose destination lies in `region`,
    /// holds no piece of its side, and whose leg cell is empty.
    fn push_jumps(
        &self,
        ret: &mut Vec<Move>,
        from: (i32, i32),
        pc: Piece,
        cands: &Vec<((i32, i32), (i32, i32))>,
        region: Region,
    )
        requires
            self.wf(),
            placed(old(ret)@, from),
            forall|i: int|
                0 <= i < cands@.len() && in_board(ip((#[trigger] cands@[i]).0)) ==> in_board(
                    ip(cands@[i].1),
                ),
        ensures
            final(ret)@ == old(ret)@ + select(cands@, jump_ok(self@, pc.side, region), jump_to(from, pc)),
            placed(final(ret)@, from),
    {
        let ghost base = ret@;
        let ghost ok = jump_ok(self@, pc.side, region);
        let ghost mk = jump_to(from, pc);
        let mut i: usize = 0;
        while i < cands.len()
            invariant
                i <= cands.len(),
                forall|i: int|
                    0 <= i < cands@.len() && in_board(ip((#[trigger] cands@[i]).0)) ==> in_board(
                        ip(cands@[i].1),
                    ),
                ok == jump_ok(self@, pc.side, region),
                mk == jump_to(from, pc),
                ret@ == base + select(cands@.take(i as int), ok, mk),
                placed(ret@, from),
            decreases cands.len() - i,
        {
            let (t, leg) = cands[i];
            proof {
                lemma_select_take(cands@, ok, mk, i as int);
            }
            if within_region(pc.side, region, t) && !self.crossing_occupied_by_side(t, pc.side)
                && !self.crossing_occupied(leg) {
                let m = Move::new(from, t, Some(pc));
                ret.push(m);
                assert(ret@ =~= base + select(cands@.take(i as int), ok, mk).push(m));
            }
            i = i + 1;
        }
        assert(cands@.take(cands@.len() as int) =~= cands@);
    }

    /// Appends the straight moves of `pc` along its rank, then its file.
    fn push_line(&self, ret: &mut Vec<Move>, from: (i32, i32), pc: Piece, capture_count: u32)
        requires
            self.wf(),
            in_board(ip(from)),
            placed(old(ret)@, from),
        ensures
            final(ret)@ == old(ret)@ + select(
                line_targets(from),
                line_ok(self@, from, pc.side, capture_count as nat),
                step_to(from, pc),
            ),
            placed(final(ret)@, from),
    {
        let ghost base = ret@;
        let ghost cands = line_targets(from);
        let ghost ok = line_ok(self@, from, pc.side, capture_count as nat);
        let ghost mk = step_to(from, pc);
        let other = pc.side.other();
        let mut i: i32 = 0;
        while i < 19
            invariant
                0 <= i <= 19,
                in_board(ip(from)),
                other == opponent(pc.side),
                cands == line_targets(from),
                ok == line_ok(self@, from, pc.side, capture_count as nat),
                mk == step_to(from, pc),
                ret@ == base + select(cands.take(i as int), ok, mk),
                placed(ret@, from),
            decreases 19 - i,
        {
            let t = if i < 9 {
                (i, from.1)
            } else {
                (from.0, i - 9)
            };
            assert(t == cands[i as int]);
            proof {
                lemma_select_take(cands, ok, mk, i as int);
            }
            if !self.crossing_occupied_by_side(t, pc.side) {
                let count = self.query_piece_count_between(from, t);
                let pass = if self.crossing_occupied_by_side(t, other) {
                    count == capture_count
                } else {
                    count == 1
                };
                if pass {
                    let m = Move::new(from, t, Some(promoted(pc, t)));
                    ret.push(m);
                    assert(ret@ =~= base + select(cands.take(i as int), ok, mk).push(m));
                }
            }
            i = i + 1;
        }
        assert(cands.take(19) =~= cands);
    }

    /// Appends the flying captures of the General `pc` at `from`.
    fn push_fly(&self, ret: &mut Vec<Move>, from: (i32, i32), pc: Piece)
        requires
            self.wf(),
            in_board(ip(from)),
            placed(old(ret)@, from),
        ensures
            final(ret)@ == old(ret)@ + select(fly_targets(from), fly_ok(self@, from, pc.side), step_to(from, pc)),
            placed(final(ret)@, from),
    {
        let ghost base = ret@;
        let ghost ok = fly_ok(self@, from, pc.side);
        let ghost mk = step_to(from, pc);
        let cands: Vec<(i32, i32)> = vec![
            (from.0, 0),
            (from.0, 1),
            (from.0, 2),
            (from.0, 3),
            (from.0, 4),
            (from.0, 5),
            (from.0, 6),
            (from.0, 7),
            (from.0, 8),
            (from.0, 9),
        ];
        assert(cands@ =~= fly_targets(from));
        let other = pc.side.other();
        let mut i: usize = 0;
        while i < cands.len()
            invariant
                i <= cands.len(),
                cands@ == fly_targets(from),
                in_board(ip(from)),
                other == opponent(pc.side),
                ok == fly_ok(self@, from, pc.side),
                mk == step_to(from, pc),
                ret@ == base + select(cands@.take(i as int), ok, mk),
                placed(ret@, from),
            decreases cands.len() - i,
        {
            let t = cands[i];
            proof {
                lemma_select_take(cands@, ok, mk, i as int);
            }
            let hit = match self.get_piece_at(t) {
                Some(q) => q.kind == PieceKind::General && q.side == other,
                None => false,
            };
            if hit && self.query_piece_count_between(from, t) == 2 {
                let m = Move::new(from, t, Some(promoted(pc, t)));
                ret.push(m);
                assert(ret@ =~= base + select(cands@.take(i as int), ok, mk).push(m));
            }
            i = i + 1;
        }
        assert(cands@.take(cands@.len() as int) =~= cands@);
    }

    /// The moves of the piece at `from` by its kind's rule.
    fn raw_moves_from(&self, from: (i32, i32)) -> (r: Vec<Move>)
        requires
            self.wf(),
            in_board(ip(from)),
        ensures
            r@ == raw_moves(self@, from),
            placed(r@, from),
    {
        let mut ret: Vec<Move> = Vec::new();
        match self.get_piece_at(from) {
            None => {},
            Some(pc) => {
                let (x, y) = from;
                match pc.kind {
                    PieceKind::General => {
                        let steps = vec![(x + 1, y), (x - 1, y), (x, y + 1), (x, y - 1)];
                        assert(steps@ =~= orthogonal_steps(from));
                        self.push_steps(&mut ret, from, pc, &steps, Region::Palace);
                        let ghost first = ret@;
                        self.push_fly(&mut ret, from, pc);
                        assert(ret@ =~= first + select(
                            fly_targets(from),
                            fly_ok(self@, from, pc.side),
                            step_to(from, pc),
                        ));
                    },
                    PieceKind::Chariot => {
                        self.push_line(&mut ret, from, pc, 2);
                    },
                    PieceKind::Horse => {
                        let jumps = vec![
                            ((x + 2, y + 1), (x + 1, y)),
                            ((x + 2, y - 1), (x + 1, y)),
                            ((x - 2, y + 1), (x - 1, y)),
                            ((x - 2, y - 1), (x - 1, y)),
                            ((x + 1, y + 2), (x, y + 1)),
                            ((x + 1, y - 2), (x, y - 1)),
                            ((x - 1, y + 2), (x, y + 1)),
                            ((x - 1, y - 2), (x, y - 1)),
                        ];
                        assert(jumps@ =~= horse_jumps(from));
                        self.push_jumps(&mut ret, from, pc, &jumps, Region::Grid);
                    },
                    PieceKind::Cannon => {
                        self.push_line(&mut ret, from, pc, 3);
                    },
                    PieceKind::Minister => {
                        let jumps = vec![
                            ((x + 2, y + 2), (x + 1, y + 1)),
                            ((x + 2, y - 2), (x + 1, y - 1)),
                            ((x - 2, y + 2), (x - 1, y + 1)),
                            ((x - 2, y - 2), (x - 1, y - 1)),
                        ];
                        assert(jumps@ =~= minister_jumps(from));
                        self.push_jumps(&mut ret, from, pc, &jumps, Region::Half);
                    },
                    PieceKind::Advisor => {
                        let steps = vec![(x + 1, y + 1), (x + 1, y - 1), (x - 1, y + 1), (x - 1, y - 1)];
                        assert(steps@ =~= diagonal_steps(from));
                        self.push_steps(&mut ret, from, pc, &steps, Region::Palace);
                    },
                    _ => {
                        let fwd: i32 = match pc.side {
                            Side::Red => 1,
                            Side::Black => -1,
                        };
                        let steps = match pc.kind {
                            PieceKind::RiverPawn => vec![(x + 1, y), (x - 1, y), (x, y + fwd)],
                            PieceKind::BasePawn => vec![(x + 1, y), (x - 1, y)],
                            _ => vec![(x, y + fwd)],
                        };
                        assert(steps@ =~= pawn_steps(from, pc));
                        self.push_steps(&mut ret, from, pc, &steps, Region::Grid);
                    },
                }
            },
        }
        assert(ret@ =~= raw_moves(self@, from));
        ret
    }

    /// The moves of the piece at `from`: those of its kind's rule, less those
    /// that the repetition filter drops when the last four moves form a cycle.
    /// Empty when the cell is empty.
    pub fn query_possible_moves_from(&self, from: (i32, i32)) -> (r: Vec<Move>)
        requires
            self.wf(),
            in_board(ip(from)),
        ensures
            r@ == moves_from(self@, from),
            placed(r@, from),
    {
        let raw = self.raw_moves_from(from);
        if !self.looped() {
            return raw;
        }
        let record = self.recent_record(4);
        let ghost ok = off_cycle(record);
        let ghost mk = same_move();
        let mut ret: Vec<Move> = Vec::new();
        let mut i: usize = 0;
        while i < raw.len()
            invariant
                i <= raw.len(),
                placed(raw@, from),
                ok == off_cycle(record),
                mk == same_move(),
                ret@ == select(raw@.take(i as int), ok, mk),
                placed(ret@, from),
            decreases raw.len() - i,
        {
            let m = raw[i];
            proof {
                lemma_select_take(raw@, ok, mk, i as int);
            }
            if !same_cell(m.pos_from, record.pos_0) && !same_cell(m.pos_to, record.pos_1) {
                ret.push(m);
            }
            i = i + 1;
        }
        assert(raw@.take(raw@.len() as int) =~= raw@);
        ret
    }

    /// The moves of `side` over the whole grid in board-scan order, with or
    /// without the repetition filter.
    fn collect_side_moves(&self, side: Side, filtered: bool) -> (r: Vec<Move>)
        requires
            self.wf(),
        ensures
            r@ == side_moves(self@, 9, side, filtered),
            on_grid(r@),
    {
        let mut ret: Vec<Move> = Vec::new();
        let mut x: i32 = 0;
        while x < 9
            invariant
                0 <= x <= 9,
                self.wf(),
                ret@ == side_moves(self@, x as int, side, filtered),
                on_grid(ret@),
            decreases 9 - x,
        {
            let ghost before = ret@;
            let mut y: i32 = 0;
            while y < 10
                invariant
                    0 <= x < 9,
                    0 <= y <= 10,
                    self.wf(),
                    ret@ == before + column_moves(self@, x as int, y as int, side, filtered),
                    on_grid(ret@),
                decreases 10 - y,
            {
                let from = (x, y);
                if self.crossing_occupied_by_side(from, side) {
                    let mut ms = if filtered {
                        self.query_possible_moves_from(from)
                    } else {
                        self.raw_moves_from(from)
                    };
                    let ghost old_ret = ret@;
                    let ghost added = ms@;
                    ret.append(&mut ms);
                    assert(ret@ =~= before + column_moves(self@, x as int, y + 1, side, filtered));
                    assert forall|i: int| 0 <= i < ret@.len() implies in_board(
                        ip((#[trigger] ret@[i]).pos_from),
                    ) && in_board(ip(ret@[i].pos_to)) by {
                        if i >= old_ret.len() {
                            assert(ret@[i] == added[i - old_ret.len()]);
                        } else {
                            assert(ret@[i] == old_ret[i]);
                        }
                    }
                } else {
                    assert(ret@ =~= before + column_moves(self@, x as int, y + 1, side, filtered));
                }
                y = y + 1;
            }
            assert(ret@ =~= side_moves(self@, x + 1, side, filtered));
            x = x + 1;
        }
        ret
    }

    /// All moves of `side`, in board-scan order (file by file, rank by rank).
    pub fn query_possible_moves_of_side(&self, side: Side) -> (r: Vec<Move>)
        requires
            self.wf(),
        ensures
            r@ == moves_of_side(self@, side),
            on_grid(r@),
    {
        self.collect_side_moves(side, true)
    }

    /// Whether some move of the opponent, by the kinds' rules alone, lands on
    /// the General of `side`.
    pub fn general_threatened(&self, side: Side) -> (r: bool)
        requires
            self.wf(),
        ensures
            r == exists|i: int|
                0 <= i < unfiltered_moves_of_side(self@, opponent(side)).len() && hits_general(
                    self@,
                    #[trigger] unfiltered_moves_of_side(self@, opponent(side))[i],
                    side,
                ),
    {
        let threats = self.collect_side_moves(side.other(), false);
        let mut i: usize = 0;
        while i < threats.len()
            invariant
                i <= threats.len(),
                on_grid(threats@),
                threats@ == unfiltered_moves_of_side(self@, opponent(side)),
                forall|j: int| 0 <= j < i ==> !hits_general(self@, #[trigger] threats@[j], side),
            decreases threats.len() - i,
        {
            let hit = match self.get_piece_at(threats[i].pos_to) {
                Some(q) => q.kind == PieceKind::General && q.side == side,
                None => false,
            };
            if hit {
                return true;
            }
            i = i + 1;
        }
        false
    }

    /// Whether `mov` is one of the moves of the piece at its origin.
    pub fn check_move(&self, mov: &Move) -> (r: bool)
        requires
            self.wf(),
        ensures
            r == (in_board(ip(mov.pos_from)) && moves_from(self@, mov.pos_from).contains(*mov)),
            r ==> in_board(ip(mov.pos_to)),
    {
        if !Board::position_within_board(mov.pos_from) {
            return false;
        }
        let possible_moves = self.query_possible_moves_from(mov.pos_from);
        let mut i: usize = 0;
        while i < possible_moves.len()
            invariant
                i <= possible_moves.len(),
                in_board(ip(mov.pos_from)),
                possible_moves@ == moves_from(self@, mov.pos_from),
                placed(possible_moves@, mov.pos_from),
                forall|j: int| 0 <= j < i ==> possible_moves@[j] != *mov,
            decreases possible_moves.len() - i,
        {
            if same_move_value(&possible_moves[i], mov) {
                assert(possible_moves@[i as int] == *mov);
                return true;
            }
            i = i + 1;
        }
        false
    }

    /// Applies `mov` if it is one of the moves of the piece at its origin;
    /// otherwise fails and leaves the board as it was.
    pub fn apply_move(&mut self, mov: &Move) -> (r: Result<(), ()>)
        requires
            old(self).wf(),
        ensures
            final(self).wf(),
            r is Ok == (in_board(ip(mov.pos_from)) && moves_from(old(self)@, mov.pos_from).contains(
                *mov,
            )),
            r is Ok ==> final(self)@ == old(self)@.apply(*mov),
            r is Err ==> final(self)@ == old(self)@,
    {
        if self.check_move(mov) {
            self.apply_move_unchecked(mov);
            Ok(())
        } else {
            Err(())
        }
    }
}

} // verus!
