use donyeh::prelude::{Board, Move, Piece, PieceKind, Side};

fn piece(kind: PieceKind, side: Side) -> Option<Piece> {
    Some(Piece::new(kind, side))
}

fn empty_map() -> [[Option<Piece>; 10]; 9] {
    [[None; 10]; 9]
}

fn targets(board: &Board, from: (i32, i32)) -> Vec<(i32, i32)> {
    let mut t: Vec<(i32, i32)> = board
        .query_possible_moves_from(from)
        .into_iter()
        .map(|m| m.pos_to)
        .collect();
    t.sort();
    t
}

fn same_state(a: &Board, b: &Board) -> bool {
    a.get_board() == b.get_board()
        && a.game_finished() == b.game_finished()
        && a.get_winner() == b.get_winner()
        && a.get_move_count() == b.get_move_count()
}

#[test]
fn undo_restores_every_move_of_the_opening() {
    let board = Board::new();
    for side in [Side::Red, Side::Black] {
        for m in board.query_possible_moves_of_side(side) {
            let mut b = board.clone();
            b.apply_move_unchecked(&m);
            assert!(b.undo_move().is_ok());
            assert!(same_state(&b, &board));
        }
    }
}

#[test]
fn undo_after_a_capture_restores_the_captured_piece() {
    let mut map = empty_map();
    map[4][0] = piece(PieceKind::General, Side::Red);
    map[4][9] = piece(PieceKind::General, Side::Black);
    map[0][0] = piece(PieceKind::Chariot, Side::Red);
    map[0][7] = piece(PieceKind::Horse, Side::Black);
    let board = Board::new_custom(map);
    let mut b = board.clone();
    b.apply_move_unchecked(&Move::new((0, 0), (0, 7), piece(PieceKind::Chariot, Side::Red)));
    assert_eq!(b.get_piece_at((0, 7)), piece(PieceKind::Chariot, Side::Red));
    assert_eq!(b.get_piece_at((0, 0)), None);
    b.undo_move().unwrap();
    assert!(same_state(&b, &board));
}

#[test]
fn move_count_tracks_applies_and_undos() {
    let mut board = Board::new();
    assert_eq!(board.get_move_count(), 0);
    let mut applied = 0u32;
    for side in [Side::Red, Side::Black, Side::Red, Side::Black, Side::Red] {
        let m = board.query_possible_moves_of_side(side)[0];
        board.apply_move(&m).unwrap();
        applied += 1;
        assert_eq!(board.get_move_count(), applied);
    }
    for undone in 1..=3u32 {
        board.undo_move().unwrap();
        assert_eq!(board.get_move_count(), applied - undone);
    }
}

#[test]
fn undo_on_fresh_board_fails() {
    let mut board = Board::new();
    assert_eq!(board.undo_move(), Err(()));
    assert_eq!(board.get_move_count(), 0);
}

#[test]
fn illegal_move_is_rejected_and_board_unchanged() {
    let mut board = Board::new();
    let before = board.clone();
    let bad = Move::new((0, 0), (1, 1), piece(PieceKind::Chariot, Side::Red));
    assert!(!board.check_move(&bad));
    assert_eq!(board.apply_move(&bad), Err(()));
    assert!(same_state(&board, &before));
    let off_grid = Move::new((9, 0), (8, 0), None);
    assert_eq!(board.apply_move(&off_grid), Err(()));
}

#[test]
fn legal_move_is_accepted() {
    let mut board = Board::new();
    let m = Move::new((0, 3), (0, 4), piece(PieceKind::FilePawn, Side::Red));
    assert!(board.check_move(&m));
    assert_eq!(board.apply_move(&m), Ok(()));
    assert_eq!(board.get_piece_at((0, 4)), piece(PieceKind::FilePawn, Side::Red));
    assert_eq!(board.get_move_count(), 1);
}

#[test]
fn opening_layout() {
    let board = Board::new();
    assert_eq!(board.get_piece_at((4, 0)), piece(PieceKind::General, Side::Red));
    assert_eq!(board.get_piece_at((4, 9)), piece(PieceKind::General, Side::Black));
    assert_eq!(board.get_piece_at((1, 2)), piece(PieceKind::Cannon, Side::Red));
    assert_eq!(board.get_piece_at((7, 7)), piece(PieceKind::Cannon, Side::Black));
    assert_eq!(board.get_piece_at((4, 3)), piece(PieceKind::CentralPawn, Side::Red));
    assert_eq!(board.get_piece_at((2, 6)), piece(PieceKind::FilePawn, Side::Black));
    assert_eq!(board.get_piece_at((4, 4)), None);
    assert_eq!(board.get_piece_count(), 32);
    assert!(!board.game_finished());
    assert_eq!(board.get_winner(), None);
}

#[test]
fn opening_moves_are_mirror_images() {
    let board = Board::new();
    let mirror = |p: (i32, i32)| (p.0, 9 - p.1);
    let mut red: Vec<((i32, i32), (i32, i32), Option<PieceKind>)> = board
        .query_possible_moves_of_side(Side::Red)
        .into_iter()
        .map(|m| (mirror(m.pos_from), mirror(m.pos_to), m.turn_into.map(|p| p.kind)))
        .collect();
    let mut black: Vec<((i32, i32), (i32, i32), Option<PieceKind>)> = board
        .query_possible_moves_of_side(Side::Black)
        .into_iter()
        .map(|m| (m.pos_from, m.pos_to, m.turn_into.map(|p| p.kind)))
        .collect();
    red.sort_by_key(|t| (t.0, t.1));
    black.sort_by_key(|t| (t.0, t.1));
    assert_eq!(red.len(), 44);
    assert_eq!(red, black);
}

#[test]
fn moves_of_side_are_in_scan_order() {
    let board = Board::new();
    let moves = board.query_possible_moves_of_side(Side::Red);
    for w in moves.windows(2) {
        assert!(w[0].pos_from <= w[1].pos_from);
    }
}

#[test]
fn flying_general_capture() {
    let mut map = empty_map();
    map[4][0] = piece(PieceKind::General, Side::Red);
    map[4][9] = piece(PieceKind::General, Side::Black);
    let board = Board::new_custom(map);
    let red_capture = Move::new((4, 0), (4, 9), piece(PieceKind::General, Side::Red));
    let black_capture = Move::new((4, 9), (4, 0), piece(PieceKind::General, Side::Black));
    assert!(board.query_possible_moves_of_side(Side::Red).contains(&red_capture));
    assert!(board.query_possible_moves_of_side(Side::Black).contains(&black_capture));
    assert!(board.general_threatened(Side::Red));
    assert!(board.general_threatened(Side::Black));

    let mut b = board.clone();
    b.apply_move(&red_capture).unwrap();
    assert!(b.game_finished());
    assert_eq!(b.get_winner(), Some(Side::Red));

    let mut b = board.clone();
    b.apply_move(&black_capture).unwrap();
    assert!(b.game_finished());
    assert_eq!(b.get_winner(), Some(Side::Black));
    b.undo_move().unwrap();
    assert!(!b.game_finished());
    assert_eq!(b.get_winner(), None);
}

#[test]
fn flying_general_blocked_by_a_piece() {
    let mut map = empty_map();
    map[4][0] = piece(PieceKind::General, Side::Red);
    map[4][9] = piece(PieceKind::General, Side::Black);
    map[4][5] = piece(PieceKind::Horse, Side::Red);
    let board = Board::new_custom(map);
    assert!(!targets(&board, (4, 0)).contains(&(4, 9)));
    assert!(!board.general_threatened(Side::Black));
}

#[test]
fn horse_leg_blocks_exactly_two_jumps() {
    let mut map = empty_map();
    map[4][4] = piece(PieceKind::Horse, Side::Red);
    let free = Board::new_custom(map);
    assert_eq!(
        targets(&free, (4, 4)),
        vec![(2, 3), (2, 5), (3, 2), (3, 6), (5, 2), (5, 6), (6, 3), (6, 5)]
    );
    for (leg, blocked) in [
        ((5, 4), [(6, 3), (6, 5)]),
        ((3, 4), [(2, 3), (2, 5)]),
        ((4, 5), [(3, 6), (5, 6)]),
        ((4, 3), [(3, 2), (5, 2)]),
    ] {
        for side in [Side::Red, Side::Black] {
            let mut m = map;
            m[leg.0 as usize][leg.1 as usize] = piece(PieceKind::FilePawn, side);
            let board = Board::new_custom(m);
            let expected: Vec<(i32, i32)> = targets(&free, (4, 4))
                .into_iter()
                .filter(|t| !blocked.contains(t))
                .collect();
            assert_eq!(targets(&board, (4, 4)), expected);
        }
    }
}

#[test]
fn cannon_capture_needs_exactly_one_screen() {
    let mut map = empty_map();
    map[0][0] = piece(PieceKind::Cannon, Side::Red);
    map[0][5] = piece(PieceKind::Horse, Side::Black);
    let none = Board::new_custom(map);
    assert!(!targets(&none, (0, 0)).contains(&(0, 5)));
    assert!(targets(&none, (0, 0)).contains(&(0, 4)));

    let mut one = map;
    one[0][2] = piece(PieceKind::FilePawn, Side::Red);
    let one = Board::new_custom(one);
    assert!(targets(&one, (0, 0)).contains(&(0, 5)));
    assert!(targets(&one, (0, 0)).contains(&(0, 1)));
    assert!(!targets(&one, (0, 0)).contains(&(0, 3)));

    let mut two = map;
    two[0][2] = piece(PieceKind::FilePawn, Side::Red);
    two[0][3] = piece(PieceKind::FilePawn, Side::Black);
    let two = Board::new_custom(two);
    assert!(!targets(&two, (0, 0)).contains(&(0, 5)));
}

#[test]
fn chariot_captures_the_first_piece_only() {
    let mut map = empty_map();
    map[0][0] = piece(PieceKind::Chariot, Side::Red);
    map[0][5] = piece(PieceKind::Horse, Side::Black);
    map[0][7] = piece(PieceKind::Horse, Side::Black);
    map[3][0] = piece(PieceKind::Advisor, Side::Red);
    let board = Board::new_custom(map);
    assert_eq!(
        targets(&board, (0, 0)),
        vec![(0, 1), (0, 2), (0, 3), (0, 4), (0, 5), (1, 0), (2, 0)]
    );
}

#[test]
fn pawns_promote() {
    let mut map = empty_map();
    map[4][4] = piece(PieceKind::CentralPawn, Side::Red);
    map[0][5] = piece(PieceKind::FilePawn, Side::Black);
    map[2][8] = piece(PieceKind::RiverPawn, Side::Red);
    map[6][0] = piece(PieceKind::BasePawn, Side::Black);
    let board = Board::new_custom(map);
    assert_eq!(
        board.query_possible_moves_from((4, 4)),
        vec![Move::new((4, 4), (4, 5), piece(PieceKind::RiverPawn, Side::Red))]
    );
    assert_eq!(
        board.query_possible_moves_from((0, 5)),
        vec![Move::new((0, 5), (0, 4), piece(PieceKind::RiverPawn, Side::Black))]
    );
    assert_eq!(
        board.query_possible_moves_from((2, 8)),
        vec![
            Move::new((2, 8), (3, 8), piece(PieceKind::RiverPawn, Side::Red)),
            Move::new((2, 8), (1, 8), piece(PieceKind::RiverPawn, Side::Red)),
            Move::new((2, 8), (2, 9), piece(PieceKind::BasePawn, Side::Red)),
        ]
    );
    assert_eq!(targets(&board, (6, 0)), vec![(5, 0), (7, 0)]);
}

#[test]
fn minister_and_advisor_stay_home() {
    let mut map = empty_map();
    map[2][4] = piece(PieceKind::Minister, Side::Red);
    map[3][5] = piece(PieceKind::FilePawn, Side::Black);
    map[4][1] = piece(PieceKind::Advisor, Side::Red);
    let board = Board::new_custom(map);
    assert_eq!(targets(&board, (2, 4)), vec![(0, 2), (4, 2)]);
    assert_eq!(targets(&board, (4, 1)), vec![(3, 0), (3, 2), (5, 0), (5, 2)]);
}

#[test]
fn general_stays_in_palace() {
    let mut map = empty_map();
    map[3][0] = piece(PieceKind::General, Side::Red);
    map[3][1] = piece(PieceKind::Advisor, Side::Red);
    map[5][9] = piece(PieceKind::General, Side::Black);
    let board = Board::new_custom(map);
    assert_eq!(targets(&board, (3, 0)), vec![(4, 0)]);
}

#[test]
fn empty_cell_has_no_moves() {
    let board = Board::new();
    assert!(board.query_possible_moves_from((4, 4)).is_empty());
}

#[test]
fn repetition_filter_after_a_bounce() {
    let mut map = empty_map();
    map[3][0] = piece(PieceKind::General, Side::Red);
    map[5][9] = piece(PieceKind::General, Side::Black);
    map[0][0] = piece(PieceKind::Chariot, Side::Red);
    map[8][9] = piece(PieceKind::Chariot, Side::Black);
    let mut board = Board::new_custom(map);
    let red = piece(PieceKind::Chariot, Side::Red);
    let black = piece(PieceKind::Chariot, Side::Black);
    let a_b = Move::new((0, 0), (0, 1), red);
    let c_d = Move::new((8, 9), (8, 8), black);
    let b_a = Move::new((0, 1), (0, 0), red);
    let d_c = Move::new((8, 8), (8, 9), black);
    assert!(board.query_possible_moves_from((0, 0)).contains(&a_b));
    for m in [a_b, c_d, b_a] {
        board.apply_move(&m).unwrap();
        assert!(!board.looped());
    }
    board.apply_move(&d_c).unwrap();
    assert!(board.looped());
    assert!(board.query_possible_moves_from((0, 0)).is_empty());
    assert!(!board.query_possible_moves_of_side(Side::Red).contains(&a_b));
    assert!(!board.check_move(&a_b));
    assert_eq!(board.apply_move(&a_b), Err(()));
    // taking back the last move breaks the cycle
    board.undo_move().unwrap();
    assert!(!board.looped());
    assert!(board.query_possible_moves_from((0, 0)).contains(&a_b));
}

#[test]
fn piece_count_between_counts_the_rectangle() {
    let board = Board::new();
    assert_eq!(board.query_piece_count_between((0, 0), (8, 0)), 9);
    assert_eq!(board.query_piece_count_between((8, 9), (0, 0)), 32);
    assert_eq!(board.query_piece_count_between((1, 2), (1, 7)), 2);
    assert_eq!(board.query_piece_count_between((4, 4), (4, 4)), 0);
}

#[test]
fn positions_and_ranges() {
    assert!(Board::position_within_board((0, 0)));
    assert!(Board::position_within_board((8, 9)));
    assert!(!Board::position_within_board((9, 0)));
    assert!(!Board::position_within_board((0, -1)));
    assert!(Board::position_within_range((4, 1), (5, 2), (3, 0)));
    assert!(!Board::position_within_range((6, 1), (3, 0), (5, 2)));
}

#[test]
fn occupancy_queries() {
    let board = Board::new();
    assert!(board.crossing_occupied((0, 0)));
    assert!(!board.crossing_occupied((0, 1)));
    assert!(board.crossing_occupied_by_side((0, 0), Side::Red));
    assert!(!board.crossing_occupied_by_side((0, 0), Side::Black));
    assert!(!board.crossing_occupied_by_side((0, 1), Side::Red));
    assert_eq!(Side::Red.other(), Side::Black);
    assert_eq!(Side::Black.other(), Side::Red);
    assert!(!board.general_threatened(Side::Red));
}

#[test]
fn flying_general_capture_on_any_rank() {
    let mut map = empty_map();
    map[4][0] = piece(PieceKind::General, Side::Red);
    map[4][5] = piece(PieceKind::General, Side::Black);
    let board = Board::new_custom(map);
    let capture = Move::new((4, 0), (4, 5), piece(PieceKind::General, Side::Red));
    assert!(board.query_possible_moves_from((4, 0)).contains(&capture));
    assert!(board.general_threatened(Side::Black));
    let mut b = board.clone();
    b.apply_move(&capture).unwrap();
    assert!(b.game_finished());
    assert_eq!(b.get_winner(), Some(Side::Red));
}

#[test]
fn move_count_with_interleaved_undos() {
    let mut board = Board::new();
    let mut expected = 0u32;
    let mut side = Side::Red;
    for undo in [false, true, false, false, true, false, true, true, false] {
        if undo {
            board.undo_move().unwrap();
            expected -= 1;
            side = side.other();
        } else {
            let m = board.query_possible_moves_of_side(side)[0];
            board.apply_move(&m).unwrap();
            expected += 1;
            side = side.other();
        }
        assert_eq!(board.get_move_count(), expected);
    }
}
