use rookery::Position;
use rookery::chess_move::{Move, Promotion};
use rookery::movegen::{has_legal_move, in_check, is_square_attacked, legal_moves, perft, perft_divide};
use rookery::{Color, Square};

#[test]
fn legal_move_probe_matches_generation_and_preserves_position() {
    for fen in [
        "rnbqkbnr/pppppppp/8/8/8/8/PPPPPPPP/RNBQKBNR w KQkq - 0 1",
        "7k/5Q2/6K1/8/8/8/8/8 b - - 0 1",
        "7k/6Q1/6K1/8/8/8/8/8 b - - 0 1",
    ] {
        let mut p = Position::from_fen(fen).unwrap();
        let original = p.clone();
        assert_eq!(has_legal_move(&mut p), !legal_moves(&mut p).is_empty());
        assert_eq!(p, original);
    }
}

#[test]
fn start_position_perft() {
    let mut p = Position::startpos();
    for (depth, expected) in [(1, 20), (2, 400), (3, 8_902), (4, 197_281)] {
        assert_eq!(perft(&mut p, depth), expected, "depth {depth}");
        assert_eq!(p, Position::startpos(), "position changed at depth {depth}");
    }
}

#[test]
fn kiwipete_perft() {
    let mut p = Position::from_fen(
        "r3k2r/p1ppqpb1/bn2pnp1/3PN3/1p2P3/2N2Q1p/PPPBBPPP/R3K2R w KQkq - 0 1",
    )
    .unwrap();
    assert_eq!(perft(&mut p, 1), 48);
    assert_eq!(perft(&mut p, 2), 2_039);
    assert_eq!(perft(&mut p, 3), 97_862);
}

#[test]
fn promotion_en_passant_and_castling_legal_moves() {
    let mut p = Position::from_fen("4k3/P7/8/3pP3/8/8/8/4K2R w K d6 0 1").unwrap();
    let moves = legal_moves(&mut p);
    for suffix in ["q", "r", "b", "n"] {
        assert!(
            moves
                .iter()
                .any(|m| m.to_uci() == format!("a7a8{suffix}"))
        );
    }
    assert!(moves.iter().any(|m| m.to_uci() == "e5d6"));
    assert!(moves.iter().any(|m| m.to_uci() == "e1g1"));
}

#[test]
fn perft_divide_sums_to_perft() {
    let mut p = Position::startpos();
    let divide = perft_divide(&mut p, 2);
    assert_eq!(divide.len(), 20);
    assert!(divide.iter().all(|(_, n)| *n == 20));
    assert_eq!(divide.iter().map(|(_, n)| n).sum::<u64>(), perft(&mut p, 2));
    assert!(perft_divide(&mut p, 0).is_empty());
    assert_eq!(perft(&mut p, 0), 1);
}

#[test]
fn check_and_attack_detection() {
    let p = Position::from_fen("7k/6Q1/6K1/8/8/8/8/8 b - - 0 1").unwrap();
    assert!(in_check(&p, Color::Black));
    assert!(!in_check(&p, Color::White));
    let p = Position::startpos();
    assert!(is_square_attacked(&p, Square::from_name("f3").unwrap(), Color::White));
    assert!(!is_square_attacked(&p, Square::from_name("e4").unwrap(), Color::White));
    assert!(is_square_attacked(&p, Square::from_name("f6").unwrap(), Color::Black));
}

#[test]
fn moves_parse_and_print_in_uci_notation() {
    let m = Move::from_uci("a7a8Q").unwrap();
    assert_eq!(m.promotion, Some(Promotion::Queen));
    assert_eq!(m.to_uci(), "a7a8q");
    assert_eq!(Move::from_uci("e2e4").unwrap().to_uci(), "e2e4");
    assert!(Move::from_uci("e2e9").is_none());
    assert!(Move::from_uci("e2e4x").is_none());
    assert!(Move::from_uci("e2").is_none());
    assert_eq!(
        Move::from_uci("g1f3"),
        Some(Move::new(Square::from_name("g1").unwrap(), Square::from_name("f3").unwrap(), None))
    );
}
