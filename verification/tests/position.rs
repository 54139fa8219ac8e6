use rookery::{Color, Position, Square};
use rookery::movegen::legal_moves;

#[test]
fn insufficient_material_recognizes_only_supported_dead_positions() {
    for fen in [
        "4k3/8/8/8/8/8/8/4K3 w - - 0 1",
        "4k3/8/8/8/8/8/8/3NK3 w - - 0 1",
        "4k3/8/8/8/8/8/8/2B1K1B1 w - - 0 1",
        "4k3/8/8/8/8/8/8/1b2KB2 w - - 0 1",
    ] {
        assert!(
            Position::from_fen(fen).unwrap().is_insufficient_material(),
            "{fen}"
        );
    }
    for fen in [
        "4k3/8/8/8/8/8/8/2NNK3 w - - 0 1",
        "4k3/8/8/8/8/8/8/2B1KBb1 w - - 0 1",
        "4k3/8/8/8/8/8/4P3/4K3 w - - 0 1",
        "4k3/8/8/8/8/8/8/R3K3 w - - 0 1",
        "4k3/8/8/8/8/8/8/Q3K3 w - - 0 1",
        "4k3/8/8/8/8/8/8/2B1KN2 w - - 0 1",
    ] {
        assert!(
            !Position::from_fen(fen).unwrap().is_insufficient_material(),
            "{fen}"
        );
    }
}

#[test]
fn make_unmake_restores_special_moves() {
    let mut p = Position::from_fen("r3k2r/P2p4/8/3pP3/8/8/8/R3K2R w KQkq d6 0 1").unwrap();
    let original = p.clone();
    let moves = legal_moves(&mut p);
    for text in ["e5d6", "a7a8q", "e1g1", "e1c1"] {
        if let Some(mv) = moves.iter().find(|m| m.to_uci() == text).copied() {
            let undo = p.make_move(mv);
            p.unmake_move(mv, undo);
            assert_eq!(p, original, "{text}");
        }
    }
}

#[test]
fn make_move_updates_game_state() {
    let mut p = Position::startpos();
    let e2e4 = legal_moves(&mut p).into_iter().find(|m| m.to_uci() == "e2e4").unwrap();
    p.make_move(e2e4);
    assert_eq!(p.to_fen(), "rnbqkbnr/pppppppp/8/8/4P3/8/PPPP1PPP/RNBQKBNR b KQkq e3 0 1");
    let mut p = Position::from_fen("r3k2r/8/8/8/8/8/8/R3K2R w KQkq - 5 9").unwrap();
    let castle = legal_moves(&mut p).into_iter().find(|m| m.to_uci() == "e1g1").unwrap();
    p.make_move(castle);
    assert_eq!(p.to_fen(), "r3k2r/8/8/8/8/8/8/R4RK1 b kq - 6 9");
    let mut p = Position::from_fen("4k3/8/8/3pP3/8/8/8/4K3 w - d6 3 20").unwrap();
    let ep = legal_moves(&mut p).into_iter().find(|m| m.to_uci() == "e5d6").unwrap();
    p.make_move(ep);
    assert_eq!(p.to_fen(), "4k3/8/3P4/8/8/8/8/4K3 b - - 0 20");
}

#[test]
fn king_square_requires_a_single_king() {
    let p = Position::startpos();
    assert_eq!(p.king_square(Color::White), Square::from_name("e1"));
    assert_eq!(p.king_square(Color::Black), Square::from_name("e8"));
    let p = Position::from_fen("8/8/8/8/8/8/8/K6K w - - 0 1").unwrap();
    assert_eq!(p.king_square(Color::White), None);
    assert_eq!(p.king_square(Color::Black), None);
}
