use donyeh::prelude::{Board, Decider, MaxMinDecider, Piece, PieceKind, Side, SimpleEvaluator};

/// Under threat, the General steps to the one safe cell.
#[test]
fn human_behavior_1() {
    let mut map = [[None; 10]; 9];
    map[4][0] = Some(Piece::new(PieceKind::General, Side::Red));
    map[3][9] = Some(Piece::new(PieceKind::General, Side::Black));
    map[4][6] = Some(Piece::new(PieceKind::Chariot, Side::Black));
    let board = Board::new_custom(map);
    let decider = MaxMinDecider::new(SimpleEvaluator::new(), 100000);
    let decision = decider.make_decision(&board, Side::Red).unwrap();
    assert!(decision.pos_to == (5, 0));
}

/// With its own General threatened, the side captures the enemy General.
#[test]
fn human_behavior_2() {
    let mut map = [[None; 10]; 9];
    map[4][0] = Some(Piece::new(PieceKind::General, Side::Red));
    map[2][9] = Some(Piece::new(PieceKind::BasePawn, Side::Red));
    map[3][9] = Some(Piece::new(PieceKind::General, Side::Black));
    map[4][6] = Some(Piece::new(PieceKind::Chariot, Side::Black));
    let board = Board::new_custom(map);
    let decider = MaxMinDecider::new(SimpleEvaluator::new(), 100000);
    let decision = decider.make_decision(&board, Side::Black).unwrap();
    assert!(decision.pos_from == (4, 6) && decision.pos_to == (4, 0));
}
