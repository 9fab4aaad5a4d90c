use donyeh::prelude::{
    play_turn, Board, Decider, Evaluator, MaxMinDecider, Move, Piece, PieceKind, RandomDecider,
    Score, Side, SimpleEvaluator, Turn,
};
use rand::Rng;

fn piece(kind: PieceKind, side: Side) -> Option<Piece> {
    Some(Piece::new(kind, side))
}

fn empty_map() -> [[Option<Piece>; 10]; 9] {
    [[None; 10]; 9]
}

fn same_state(a: &Board, b: &Board) -> bool {
    a.get_board() == b.get_board()
        && a.game_finished() == b.game_finished()
        && a.get_winner() == b.get_winner()
        && a.get_move_count() == b.get_move_count()
}

/// A chariot that can win a horse; nothing else can be captured.
fn capture_board() -> Board {
    let mut map = empty_map();
    map[3][0] = piece(PieceKind::General, Side::Red);
    map[0][0] = piece(PieceKind::Chariot, Side::Red);
    map[0][5] = piece(PieceKind::Horse, Side::Black);
    map[5][9] = piece(PieceKind::General, Side::Black);
    Board::new_custom(map)
}

#[test]
fn search_returns_a_legal_move_on_random_positions() {
    let mut rng = rand::thread_rng();
    let random = RandomDecider::new();
    for _ in 0..8 {
        let mut board = Board::new();
        let plies = rng.gen_range(0..20);
        let mut side = Side::Red;
        for _ in 0..plies {
            match random.make_decision(&board, side) {
                Some(m) => board.apply_move(&m).unwrap(),
                None => break,
            }
            if board.game_finished() {
                break;
            }
            side = side.other();
        }
        if board.game_finished() {
            continue;
        }
        for budget in [1u32, 60, 600, 3000] {
            let before = board.clone();
            let decider = MaxMinDecider::new(SimpleEvaluator::new(), budget);
            let legal = board.query_possible_moves_of_side(side);
            match decider.make_decision(&board, side) {
                Some(m) => {
                    assert!(legal.contains(&m));
                    assert!(board.check_move(&m));
                }
                None => assert!(legal.is_empty()),
            }
            assert!(same_state(&board, &before));
        }
    }
}

#[test]
fn no_moves_gives_none() {
    let mut map = empty_map();
    map[4][0] = piece(PieceKind::General, Side::Red);
    let board = Board::new_custom(map);
    let decider = MaxMinDecider::new(SimpleEvaluator::new(), 1000);
    assert_eq!(decider.make_decision(&board, Side::Black), None);
    assert_eq!(RandomDecider::new().make_decision(&board, Side::Black), None);
}

#[test]
fn immediate_capture_with_tiny_budget() {
    let mut map = empty_map();
    map[4][0] = piece(PieceKind::General, Side::Red);
    map[3][9] = piece(PieceKind::General, Side::Black);
    map[0][0] = piece(PieceKind::Chariot, Side::Red);
    map[0][9] = piece(PieceKind::Horse, Side::Black);
    map[2][9] = piece(PieceKind::Chariot, Side::Red);
    let board = Board::new_custom(map);
    for budget in [0u32, 1] {
        let decider = MaxMinDecider::new(SimpleEvaluator::new(), budget);
        let m = decider.make_decision(&board, Side::Red).unwrap();
        assert_eq!(m.pos_from, (2, 9));
        assert_eq!(m.pos_to, (3, 9));
    }
}

#[test]
fn budget_fallback_keeps_depth_one_choice() {
    let board = capture_board();
    let n = board.query_possible_moves_of_side(Side::Red).len() as u32;
    // depth one needs one node per root move; depth two needs more
    let decider = MaxMinDecider::new(SimpleEvaluator::new(), n);
    let m = decider.make_decision(&board, Side::Red).unwrap();
    assert_eq!(m, Move::new((0, 0), (0, 5), piece(PieceKind::Chariot, Side::Red)));
}

#[test]
fn budget_too_small_for_depth_one_still_moves() {
    let board = capture_board();
    let first = board.query_possible_moves_of_side(Side::Red)[0];
    let decider = MaxMinDecider::new(SimpleEvaluator::new(), 0);
    assert_eq!(decider.make_decision(&board, Side::Red), Some(first));
}

#[test]
fn deeper_search_wins_material() {
    let board = capture_board();
    let decider = MaxMinDecider::new(SimpleEvaluator::new(), 20000);
    let m = decider.make_decision(&board, Side::Red).unwrap();
    assert_eq!(m.pos_to, (0, 5));
}

#[test]
fn random_decider_picks_legal_and_varied_moves() {
    let board = Board::new();
    let legal = board.query_possible_moves_of_side(Side::Red);
    let random = RandomDecider::new();
    let mut seen_other_than_first = false;
    for _ in 0..60 {
        let m = random.make_decision(&board, Side::Red).unwrap();
        assert!(legal.contains(&m));
        if m != legal[0] {
            seen_other_than_first = true;
        }
    }
    assert!(seen_other_than_first);
}

#[test]
fn material_evaluation_values() {
    let board = Board::new();
    let e = SimpleEvaluator::new();
    let s = e.evaluate(&board, Side::Red);
    assert_eq!((s.num, s.den), (2625, 5250));

    let board = capture_board();
    let red = e.evaluate(&board, Side::Red);
    let black = e.evaluate(&board, Side::Black);
    // four pieces: endgame table, Horse worth 53
    assert_eq!((red.num, red.den), (2100, 4153));
    assert_eq!((black.num, black.den), (2053, 4153));
    assert_eq!(red.num + black.num, red.den);

    let empty = Board::new_custom(empty_map());
    let s = e.evaluate(&empty, Side::Black);
    assert_eq!((s.num, s.den), (1, 2));
}

#[test]
fn single_piece_values() {
    let horse = piece(PieceKind::Horse, Side::Red);
    let cannon = piece(PieceKind::Cannon, Side::Black);
    assert_eq!(SimpleEvaluator::evaluate_single_piece_1(horse), 47);
    assert_eq!(SimpleEvaluator::evaluate_single_piece_1(cannon), 53);
    assert_eq!(SimpleEvaluator::evaluate_single_piece_2(horse), 53);
    assert_eq!(SimpleEvaluator::evaluate_single_piece_2(cannon), 47);
    assert_eq!(SimpleEvaluator::evaluate_single_piece_1(None), 0);
    assert_eq!(SimpleEvaluator::evaluate_single_piece_2(piece(PieceKind::General, Side::Red)), 2000);
    assert_eq!(SimpleEvaluator::evaluate_single_piece_1(piece(PieceKind::BasePawn, Side::Red)), 15);
}

#[test]
fn score_arithmetic() {
    let third = Score::new(1, 3);
    let half = Score::new(2, 4);
    assert!(half.greater_than(&third));
    assert!(!third.greater_than(&half));
    assert!(!half.greater_than(&Score::new(1, 2)));
    let c = third.complement();
    assert_eq!((c.num, c.den), (2, 3));
    assert!(Score::one().greater_than(&Score::zero()));
}

#[test]
fn play_turn_applies_the_decision() {
    let mut board = capture_board();
    let decider = MaxMinDecider::new(SimpleEvaluator::new(), 5000);
    match play_turn(&decider, &mut board, Side::Red) {
        Turn::Played(m) => {
            assert_eq!(board.get_move_count(), 1);
            assert_eq!(board.get_piece_at(m.pos_to), m.turn_into);
        }
        other => panic!("unexpected {:?}", other),
    }

    let mut map = empty_map();
    map[4][0] = piece(PieceKind::General, Side::Red);
    map[4][9] = piece(PieceKind::General, Side::Black);
    let mut board = Board::new_custom(map);
    match play_turn(&decider, &mut board, Side::Black) {
        Turn::Over(m, winner) => {
            assert_eq!(m.pos_to, (4, 0));
            assert_eq!(winner, Some(Side::Black));
        }
        other => panic!("unexpected {:?}", other),
    }

    let mut map = empty_map();
    map[4][0] = piece(PieceKind::General, Side::Red);
    let mut board = Board::new_custom(map);
    assert!(matches!(play_turn(&decider, &mut board, Side::Black), Turn::NoMove));
}
