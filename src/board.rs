//! The board: a nine-by-ten grid of optional pieces, the stack of undo records,
//! and the game-over state.
use vstd::prelude::*;

verus! {

/// One of the two players.
#[derive(Debug, Clone, Copy, PartialEq, Eq, Structural)]
pub enum Side {
    Red,
    Black,
}

/// The kind of a piece. Pawns change kind as they advance:
/// `CentralPawn` and `FilePawn` become `RiverPawn` past the river,
/// and a `RiverPawn` becomes a `BasePawn` on the opponent's back rank.
#[derive(Debug, Clone, Copy, PartialEq, Eq, Structural)]
pub enum PieceKind {
    General,
    Chariot,
    Horse,
    Cannon,
    Minister,
    Advisor,
    CentralPawn,
    RiverPawn,
    FilePawn,
    BasePawn,
}

/// A piece: its side and its kind.
#[derive(Debug, Clone, Copy, PartialEq, Eq, Structural)]
pub struct Piece {
    pub side: Side,
    pub kind: PieceKind,
}

/// A move from one cell to another; `turn_into` is what stands on the
/// destination afterwards (the moved piece, or its promotion).
#[derive(Debug, Clone, Copy, PartialEq, Eq)]
pub struct Move {
    pub pos_from: (i32, i32),
    pub pos_to: (i32, i32),
    pub turn_into: Option<Piece>,
}

/// What one applied move overwrote: both cells and their former occupants.
#[derive(Debug, Clone, Copy, PartialEq, Eq)]
pub struct UnmoveRecord {
    pub pos_0: (i32, i32),
    pub piece_0: Option<Piece>,
    pub pos_1: (i32, i32),
    pub piece_1: Option<Piece>,
}

/// The board. Cell `map[x][y]` is file `x`, rank `y`.
#[derive(Debug, Clone)]
pub struct Board {
    finished: bool,
    map: [[Option<Piece>; 10]; 9],
    unmove_records: Vec<UnmoveRecord>,
    winner: Option<Side>,
}

/// The mathematical state of a board.
pub struct BoardState {
    pub finished: bool,
    pub winner: Option<Side>,
    /// Occupant of each cell, defined exactly on the cells of the grid.
    pub cells: Map<(int, int), Option<Piece>>,
    /// Undo records, oldest first.
    pub history: Seq<UnmoveRecord>,
}

/// The smaller of two integers.
pub open spec fn min_of(a: int, b: int) -> int {
    if a < b {
        a
    } else {
        b
    }
}

/// The larger of two integers.
pub open spec fn max_of(a: int, b: int) -> int {
    if a < b {
        b
    } else {
        a
    }
}

/// Whether `v` lies between `a` and `b`, both included, in either order.
pub open spec fn between(v: int, a: int, b: int) -> bool {
    (a <= v <= b) || (b <= v <= a)
}

/// The kind on the back rank of file `x` in the opening layout.
pub open spec fn back_rank_kind(x: int) -> PieceKind {
    if x == 0 || x == 8 {
        PieceKind::Chariot
    } else if x == 1 || x == 7 {
        PieceKind::Horse
    } else if x == 2 || x == 6 {
        PieceKind::Minister
    } else if x == 3 || x == 5 {
        PieceKind::Advisor
    } else {
        PieceKind::General
    }
}

/// The occupant of cell `p` in the opening layout: Red on the low ranks, Black
/// mirrored on the high ranks.
pub open spec fn opening_at(p: (int, int)) -> Option<Piece> {
    let (x, y) = p;
    let side = if y <= 4 { Side::Red } else { Side::Black };
    let home = if y <= 4 { y } else { 9 - y };
    if home == 0 {
        Some(Piece { side, kind: back_rank_kind(x) })
    } else if home == 2 && (x == 1 || x == 7) {
        Some(Piece { side, kind: PieceKind::Cannon })
    } else if home == 3 && x == 4 {
        Some(Piece { side, kind: PieceKind::CentralPawn })
    } else if home == 3 && (x == 0 || x == 2 || x == 6 || x == 8) {
        Some(Piece { side, kind: PieceKind::FilePawn })
    } else {
        None
    }
}

/// The position as a pair of mathematical integers.
pub open spec fn ip(p: (i32, i32)) -> (int, int) {
    (p.0 as int, p.1 as int)
}

/// Whether a cell lies on the grid.
pub open spec fn in_board(p: (int, int)) -> bool {
    0 <= p.0 < 9 && 0 <= p.1 < 10
}

/// The opponent of a side.
pub open spec fn opponent(s: Side) -> Side {
    match s {
        Side::Red => Side::Black,
        Side::Black => Side::Red,
    }
}

/// Whether a record's two cells lie on the grid.
pub open spec fn record_in_board(r: UnmoveRecord) -> bool {
    in_board(ip(r.pos_0)) && in_board(ip(r.pos_1))
}

/// The cells of the grid, each mapped to its occupant in `m`.
pub open spec fn grid_cells(m: [[Option<Piece>; 10]; 9]) -> Map<(int, int), Option<Piece>> {
    Map::new(|p: (int, int)| in_board(p), |p: (int, int)| m[p.0][p.1])
}

impl BoardState {
    /// The occupant of a cell.
    pub open spec fn at(self, p: (int, int)) -> Option<Piece> {
        self.cells[p]
    }

    /// Whether a cell holds a piece.
    pub open spec fn occupied(self, p: (int, int)) -> bool {
        self.at(p) is Some
    }

    /// Whether a cell holds a piece of `side`.
    pub open spec fn occupied_by(self, p: (int, int), side: Side) -> bool {
        match self.at(p) {
            Some(pc) => pc.side == side,
            None => false,
        }
    }

    /// Number of occupied cells of file `x` with rank in `ylo..yend`.
    pub open spec fn count_col(self, x: int, ylo: int, yend: int) -> nat
        decreases yend - ylo,
    {
        if yend <= ylo {
            0
        } else {
            self.count_col(x, ylo, yend - 1) + if self.occupied((x, yend - 1)) {
                1nat
            } else {
                0nat
            }
        }
    }

    /// Number of occupied cells with file in `xlo..xend` and rank in `ylo..yend`.
    pub open spec fn count_rect(self, xlo: int, xend: int, ylo: int, yend: int) -> nat
        decreases xend - xlo,
    {
        if xend <= xlo {
            0
        } else {
            self.count_rect(xlo, xend - 1, ylo, yend) + self.count_col(xend - 1, ylo, yend)
        }
    }

    /// Number of occupied cells in the rectangle with corners `p1` and `p2`, both included.
    pub open spec fn count_between(self, p1: (int, int), p2: (int, int)) -> nat {
        self.count_rect(
            min_of(p1.0, p2.0),
            max_of(p1.0, p2.0) + 1,
            min_of(p1.1, p2.1),
            max_of(p1.1, p2.1) + 1,
        )
    }

    /// Number of occupied cells on the whole grid.
    pub open spec fn piece_count(self) -> nat {
        self.count_rect(0, 9, 0, 10)
    }

    /// Whether the last four moves were non-captures in which the first and
    /// third, and the second and fourth, undo each other.
    pub open spec fn looped(self) -> bool {
        let h = self.history;
        let n = h.len() as int;
        &&& n >= 4
        &&& h[n - 4].piece_1 is None
        &&& h[n - 3].piece_1 is None
        &&& h[n - 2].piece_1 is None
        &&& h[n - 1].piece_1 is None
        &&& h[n - 4].pos_0 == h[n - 2].pos_1
        &&& h[n - 4].pos_1 == h[n - 2].pos_0
        &&& h[n - 3].pos_0 == h[n - 1].pos_1
        &&& h[n - 3].pos_1 == h[n - 1].pos_0
    }

    /// The state after applying `ms` in order.
    pub open spec fn apply_all(self, ms: Seq<Move>) -> BoardState
        decreases ms.len(),
    {
        if ms.len() == 0 {
            self
        } else {
            self.apply_all(ms.drop_last()).apply(ms.last())
        }
    }

    /// The state after `n` undos.
    pub open spec fn undo_n(self, n: nat) -> BoardState
        decreases n,
    {
        if n == 0 {
            self
        } else {
            self.undo_n((n - 1) as nat).undo()
        }
    }

    /// A board is well formed when the game is over exactly when it has a
    /// winner, the grid has all its cells, and every record names cells of the grid.
    pub open spec fn wf(self) -> bool {
        &&& self.finished <==> self.winner is Some
        &&& forall|p: (int, int)| #[trigger] self.cells.contains_key(p) <==> in_board(p)
        &&& forall|i: int| 0 <= i < self.history.len() ==> record_in_board(#[trigger] self.history[i])
    }

    /// The state after moving `m`'s piece, without any legality check.
    pub open spec fn apply(self, m: Move) -> BoardState {
        let from = ip(m.pos_from);
        let to = ip(m.pos_to);
        let captured = self.at(to);
        let ends = match captured {
            Some(pc) => pc.kind == PieceKind::General,
            None => false,
        };
        BoardState {
            finished: if ends { true } else { self.finished },
            winner: if ends { Some(opponent(captured->Some_0.side)) } else { self.winner },
            cells: self.cells.insert(from, None).insert(to, m.turn_into),
            history: self.history.push(
                UnmoveRecord {
                    pos_0: m.pos_from,
                    piece_0: self.at(from),
                    pos_1: m.pos_to,
                    piece_1: captured,
                },
            ),
        }
    }

    /// The state after taking back the last applied move.
    pub open spec fn undo(self) -> BoardState
        recommends
            self.history.len() > 0,
    {
        let r = self.history.last();
        BoardState {
            finished: false,
            winner: None,
            cells: self.cells.insert(ip(r.pos_0), r.piece_0).insert(ip(r.pos_1), r.piece_1),
            history: self.history.drop_last(),
        }
    }
}

/// Applying any move whose cells lie on the grid and then undoing it gives back
/// exactly the board one started from (every cell, the game-over state, the
/// winner and the history), on a board whose game is not over.
pub proof fn lemma_undo_inverts_apply(b: BoardState, m: Move)
    requires
        b.wf(),
        !b.finished,
        in_board(ip(m.pos_from)),
        in_board(ip(m.pos_to)),
    ensures
        b.apply(m).undo() == b,
{
    let a = b.apply(m);
    assert(a.history.last() == UnmoveRecord {
        pos_0: m.pos_from,
        piece_0: b.at(ip(m.pos_from)),
        pos_1: m.pos_to,
        piece_1: b.at(ip(m.pos_to)),
    });
    assert(a.undo().cells =~= b.cells);
    assert(a.undo().history =~= b.history);
}

/// Applying a well-formed board's moves keeps it well formed, and each applied
/// move adds one record.
pub proof fn lemma_apply_all_len(b: BoardState, ms: Seq<Move>)
    requires
        b.wf(),
        forall|i: int|
            0 <= i < ms.len() ==> in_board(ip(#[trigger] ms[i].pos_from)) && in_board(
                ip(ms[i].pos_to),
            ),
    ensures
        b.apply_all(ms).wf(),
        b.apply_all(ms).history.len() == b.history.len() + ms.len(),
    decreases ms.len(),
{
    if ms.len() > 0 {
        lemma_apply_all_len(b, ms.drop_last());
        let c = b.apply_all(ms.drop_last());
        let m = ms.last();
        assert(in_board(ip(ms[ms.len() - 1].pos_from)));
        assert forall|p: (int, int)| #[trigger] c.apply(m).cells.contains_key(p) <==> in_board(
            p,
        ) by {}
        assert forall|i: int| 0 <= i < c.apply(m).history.len() implies record_in_board(
            #[trigger] c.apply(m).history[i],
        ) by {
            if i < c.history.len() {
                assert(c.apply(m).history[i] == c.history[i]);
            }
        }
    }
}

/// Undoing `n` moves, where at least `n` were recorded, removes `n` records.
pub proof fn lemma_undo_n_len(b: BoardState, n: nat)
    requires
        n <= b.history.len(),
    ensures
        b.undo_n(n).history.len() == b.history.len() - n,
    decreases n,
{
    if n > 0 {
        lemma_undo_n_len(b, (n - 1) as nat);
    }
}

/// Move count: after `N` moves are applied to a board and `U <= N` of them are
/// undone, the board counts `N - U` more moves than before.
pub proof fn lemma_move_count(b: BoardState, ms: Seq<Move>, u: nat)
    requires
        b.wf(),
        u <= ms.len(),
        forall|i: int|
            0 <= i < ms.len() ==> in_board(ip(#[trigger] ms[i].pos_from)) && in_board(
                ip(ms[i].pos_to),
            ),
    ensures
        b.apply_all(ms).undo_n(u).history.len() == b.history.len() + ms.len() - u,
{
    lemma_apply_all_len(b, ms);
    lemma_undo_n_len(b.apply_all(ms), u);
}

/// Number of applications in a run of operations (`Some(m)` applies `m`).
pub open spec fn applies(ops: Seq<Option<Move>>) -> int
    decreases ops.len(),
{
    if ops.len() == 0 {
        0
    } else {
        applies(ops.drop_last()) + if ops.last() is Some {
            1int
        } else {
            0int
        }
    }
}

/// Number of undos in a run of operations (`None` undoes the last move).
pub open spec fn undos(ops: Seq<Option<Move>>) -> int
    decreases ops.len(),
{
    if ops.len() == 0 {
        0
    } else {
        undos(ops.drop_last()) + if ops.last() is None {
            1int
        } else {
            0int
        }
    }
}

impl BoardState {
    /// The state after a run of operations: `Some(m)` applies `m`, `None`
    /// undoes the last move.
    pub open spec fn run(self, ops: Seq<Option<Move>>) -> BoardState
        decreases ops.len(),
    {
        if ops.len() == 0 {
            self
        } else {
            let s = self.run(ops.drop_last());
            match ops.last() {
                Some(m) => s.apply(m),
                None => s.undo(),
            }
        }
    }
}

/// Move count under any interleaving of applies and undos: when no prefix of
/// the run undoes more moves than were recorded before it plus those it
/// applied, the count grows by the applies less the undos.
pub proof fn lemma_move_count_interleaved(b: BoardState, ops: Seq<Option<Move>>)
    requires
        forall|i: int|
            0 <= i <= ops.len() ==> undos(#[trigger] ops.take(i)) <= b.history.len() + applies(
                ops.take(i),
            ),
    ensures
        b.run(ops).history.len() == b.history.len() + applies(ops) - undos(ops),
    decreases ops.len(),
{
    if ops.len() > 0 {
        let init = ops.drop_last();
        assert forall|i: int| 0 <= i <= init.len() implies undos(#[trigger] init.take(i)) <= b.history.len()
            + applies(init.take(i)) by {
            assert(init.take(i) =~= ops.take(i));
        }
        lemma_move_count_interleaved(b, init);
        assert(ops.take(ops.len() as int) =~= ops);
    }
}

impl View for Board {
    type V = BoardState;

    closed spec fn view(&self) -> BoardState {
        BoardState {
            finished: self.finished,
            winner: self.winner,
            cells: grid_cells(self.map),
            history: self.unmove_records@,
        }
    }
}

impl Side {
    /// The other side.
    pub fn other(&self) -> (r: Side)
        ensures
            r == opponent(*self),
    {
        match self {
            Side::Red => Side::Black,
            Side::Black => Side::Red,
        }
    }
}

impl Piece {
    /// A piece of `kind` belonging to `side`.
    pub fn new(kind: PieceKind, side: Side) -> (r: Piece)
        ensures
            r == (Piece { side, kind }),
    {
        Piece { kind, side }
    }
}

impl Move {
    /// A move from `pos_from` to `pos_to` leaving `turn_into` on the destination.
    pub fn new(pos_from: (i32, i32), pos_to: (i32, i32), turn_into: Option<Piece>) -> (r: Move)
        ensures
            r == (Move { pos_from, pos_to, turn_into }),
    {
        Move { pos_from, pos_to, turn_into }
    }
}

impl Board {
    /// See [`BoardState::wf`].
    pub open spec fn wf(&self) -> bool {
        self@.wf()
    }

    /// A board with the given grid, no history and the game not over.
    pub fn new_custom(map: [[Option<Piece>; 10]; 9]) -> (r: Board)
        ensures
            r.wf(),
            r@.cells == grid_cells(map),
            !r@.finished,
            r@.winner is None,
            r@.history.len() == 0,
    {
        Board { finished: false, map, unmove_records: Vec::new(), winner: None }
    }

    /// The occupant of a cell of the grid.
    pub fn get_piece_at(&self, pos: (i32, i32)) -> (r: Option<Piece>)
        requires
            in_board(ip(pos)),
        ensures
            r == self@.at(ip(pos)),
    {
        self.map[pos.0 as usize][pos.1 as usize]
    }

    /// A board in the opening layout.
    pub fn new() -> (r: Board)
        ensures
            r.wf(),
            forall|p: (int, int)| in_board(p) ==> #[trigger] r@.at(p) == opening_at(p),
            !r@.finished,
            r@.winner is None,
            r@.history.len() == 0,
    {
        let mut map: [[Option<Piece>; 10]; 9] = [[None; 10]; 9];
        let mut x: usize = 0;
        while x < 9
            invariant
                0 <= x <= 9,
                forall|i: int, j: int|
                    0 <= i < 9 && 0 <= j < 10 ==> #[trigger] map[i][j] == if i < x {
                        opening_at((i, j))
                    } else {
                        None
                    },
            decreases 9 - x,
        {
            let mut col: [Option<Piece>; 10] = [None; 10];
            let kind = if x == 0 || x == 8 {
                PieceKind::Chariot
            } else if x == 1 || x == 7 {
                PieceKind::Horse
            } else if x == 2 || x == 6 {
                PieceKind::Minister
            } else if x == 3 || x == 5 {
                PieceKind::Advisor
            } else {
                PieceKind::General
            };
            col[0] = Some(Piece::new(kind, Side::Red));
            col[9] = Some(Piece::new(kind, Side::Black));
            if x == 1 || x == 7 {
                col[2] = Some(Piece::new(PieceKind::Cannon, Side::Red));
                col[7] = Some(Piece::new(PieceKind::Cannon, Side::Black));
            }
            if x == 4 {
                col[3] = Some(Piece::new(PieceKind::CentralPawn, Side::Red));
                col[6] = Some(Piece::new(PieceKind::CentralPawn, Side::Black));
            } else if x % 2 == 0 {
                col[3] = Some(Piece::new(PieceKind::FilePawn, Side::Red));
                col[6] = Some(Piece::new(PieceKind::FilePawn, Side::Black));
            }
            assert(forall|j: int| 0 <= j < 10 ==> #[trigger] col[j] == opening_at((x as int, j)));
            map[x] = col;
            x = x + 1;
        }
        let r = Board { finished: false, map, unmove_records: Vec::new(), winner: None };
        assert(forall|p: (int, int)| in_board(p) ==> #[trigger] r@.at(p) == map[p.0][p.1]);
        r
    }

    /// An exact copy of the board, history included.
    pub fn snapshot(&self) -> (r: Board)
        ensures
            r@ == self@,
    {
        let records = self.unmove_records.clone();
        assert(records@ =~= self.unmove_records@);
        Board { finished: self.finished, map: self.map, unmove_records: records, winner: self.winner }
    }

    /// Whether `pos` lies on the grid.
    pub fn position_within_board(pos: (i32, i32)) -> (r: bool)
        ensures
            r == in_board(ip(pos)),
    {
        Board::position_within_range(pos, (0, 0), (8, 9))
    }

    /// Whether `pos` lies in the rectangle with corners `bound1` and `bound2`, both included.
    pub fn position_within_range(pos: (i32, i32), bound1: (i32, i32), bound2: (i32, i32)) -> (r:
        bool)
        ensures
            r == (between(pos.0 as int, bound1.0 as int, bound2.0 as int) && between(
                pos.1 as int,
                bound1.1 as int,
                bound2.1 as int,
            )),
    {
        let in_x = (bound1.0 <= pos.0 && pos.0 <= bound2.0) || (bound2.0 <= pos.0 && pos.0
            <= bound1.0);
        let in_y = (bound1.1 <= pos.1 && pos.1 <= bound2.1) || (bound2.1 <= pos.1 && pos.1
            <= bound1.1);
        in_x && in_y
    }

    /// Whether a cell of the grid holds a piece.
    pub fn crossing_occupied(&self, pos: (i32, i32)) -> (r: bool)
        requires
            in_board(ip(pos)),
        ensures
            r == self@.occupied(ip(pos)),
    {
        self.get_piece_at(pos).is_some()
    }

    /// Whether a cell of the grid holds a piece of `side`.
    pub fn crossing_occupied_by_side(&self, pos: (i32, i32), side: Side) -> (r: bool)
        requires
            in_board(ip(pos)),
        ensures
            r == self@.occupied_by(ip(pos), side),
    {
        match self.get_piece_at(pos) {
            Some(piece) => piece.side == side,
            None => false,
        }
    }

    /// Whether a General has been captured.
    pub fn game_finished(&self) -> (r: bool)
        ensures
            r == self@.finished,
    {
        self.finished
    }

    /// The side that captured a General, if any.
    pub fn get_winner(&self) -> (r: Option<Side>)
        ensures
            r == self@.winner,
    {
        self.winner
    }

    /// The grid itself.
    pub fn get_board(&self) -> (r: &[[Option<Piece>; 10]; 9])
        ensures
            grid_cells(*r) == self@.cells,
    {
        &self.map
    }

    /// Number of moves applied and not undone.
    pub fn get_move_count(&self) -> (r: u32)
        ensures
            r == self@.history.len() as u32,
    {
        self.unmove_records.len() as u32
    }

    /// Number of pieces on the grid.
    pub fn get_piece_count(&self) -> (r: u32)
        ensures
            r == self@.piece_count(),
    {
        self.query_piece_count_between((0, 0), (8, 9))
    }

    /// Number of pieces in the rectangle with corners `pos1` and `pos2`, both included.
    pub fn query_piece_count_between(&self, pos1: (i32, i32), pos2: (i32, i32)) -> (r: u32)
        requires
            in_board(ip(pos1)),
            in_board(ip(pos2)),
        ensures
            r == self@.count_between(ip(pos1), ip(pos2)),
    {
        let (left, right) = if pos1.0 < pos2.0 {
            (pos1.0, pos2.0)
        } else {
            (pos2.0, pos1.0)
        };
        let (down, up) = if pos1.1 < pos2.1 {
            (pos1.1, pos2.1)
        } else {
            (pos2.1, pos1.1)
        };
        let ghost b = self@;
        let mut ret: u32 = 0;
        let mut x: i32 = left;
        while x <= right
            invariant
                0 <= left <= x <= right + 1,
                right < 9,
                0 <= down <= up < 10,
                b == self@,
                ret == b.count_rect(left as int, x as int, down as int, up + 1),
                ret <= 10 * (x - left),
            decreases right + 1 - x,
        {
            let mut y: i32 = down;
            while y <= up
                invariant
                    0 <= left <= x <= right,
                    right < 9,
                    0 <= down <= y <= up + 1,
                    up < 10,
                    b == self@,
                    ret == b.count_rect(left as int, x as int, down as int, up + 1) + b.count_col(
                        x as int,
                        down as int,
                        y as int,
                    ),
                    ret <= 10 * (x - left) + (y - down),
                decreases up + 1 - y,
            {
                if self.get_piece_at((x, y)).is_some() {
                    ret = ret + 1;
                }
                y = y + 1;
            }
            x = x + 1;
        }
        ret
    }

    /// The record `back` places from the top of the history (1 is the latest).
    pub(crate) fn recent_record(&self, back: usize) -> (r: UnmoveRecord)
        requires
            1 <= back <= self@.history.len(),
        ensures
            r == self@.history[self@.history.len() - back],
    {
        self.unmove_records[self.unmove_records.len() - back]
    }

    /// Whether the last four moves form a cycle (see [`BoardState::looped`]).
    pub fn looped(&self) -> (r: bool)
        ensures
            r == self@.looped(),
    {
        let records = &self.unmove_records;
        if records.len() >= 4 {
            let len = records.len();
            let a = records[len - 4];
            let b = records[len - 3];
            let c = records[len - 2];
            let d = records[len - 1];
            a.piece_1.is_none() && b.piece_1.is_none() && c.piece_1.is_none()
                && d.piece_1.is_none() && a.pos_0.0 == c.pos_1.0 && a.pos_0.1 == c.pos_1.1
                && a.pos_1.0 == c.pos_0.0 && a.pos_1.1 == c.pos_0.1 && b.pos_0.0 == d.pos_1.0
                && b.pos_0.1 == d.pos_1.1 && b.pos_1.0 == d.pos_0.0 && b.pos_1.1 == d.pos_0.1
        } else {
            false
        }
    }

    /// Moves the piece at `mov.pos_from` to `mov.pos_to`, leaving `mov.turn_into`
    /// there, with no legality check; capturing a General ends the game.
    pub fn apply_move_unchecked(&mut self, mov: &Move)
        requires
            old(self).wf(),
            in_board(ip(mov.pos_from)),
            in_board(ip(mov.pos_to)),
        ensures
            final(self).wf(),
            final(self)@ == old(self)@.apply(*mov),
    {
        let from = mov.pos_from;
        let to = mov.pos_to;
        let captured = self.map[to.0 as usize][to.1 as usize];
        match captured {
            Some(piece_killed) => {
                if piece_killed.kind == PieceKind::General {
                    self.finished = true;
                    self.winner = Some(piece_killed.side.other());
                }
            },
            None => {},
        }
        let unmove_record = UnmoveRecord {
            pos_0: mov.pos_from,
            piece_0: self.get_piece_at(mov.pos_from),
            pos_1: mov.pos_to,
            piece_1: captured,
        };
        self.unmove_records.push(unmove_record);
        self.map[from.0 as usize][from.1 as usize] = None;
        self.map[to.0 as usize][to.1 as usize] = mov.turn_into;
        assert(self@.cells =~= old(self)@.apply(*mov).cells);
    }

    /// Takes back the last applied move; fails, changing nothing, when no move was applied.
    pub fn undo_move(&mut self) -> (r: Result<(), ()>)
        requires
            old(self).wf(),
        ensures
            final(self).wf(),
            old(self)@.history.len() == 0 ==> r is Err && final(self)@ == old(self)@,
            old(self)@.history.len() > 0 ==> r is Ok && final(self)@ == old(self)@.undo(),
    {
        match self.unmove_records.pop() {
            None => Err(()),
            Some(record) => {
                proof {
                    assert(record == old(self)@.history.last());
                    assert(record_in_board(old(self)@.history[old(self)@.history.len() - 1]));
                }
                self.map[record.pos_0.0 as usize][record.pos_0.1 as usize] = record.piece_0;
                self.map[record.pos_1.0 as usize][record.pos_1.1 as usize] = record.piece_1;
                self.finished = false;
                self.winner = None;
                assert(self@.cells =~= old(self)@.undo().cells);
                Ok(())
            },
        }
    }
}

} // verus!
