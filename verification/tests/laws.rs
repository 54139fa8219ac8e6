use rookery::{Color, PieceKind, Position};
use rookery::hash::{hash_position, repetition_key};
use rookery::search::{INF, Searcher};

fn clamp(x: i32, lo: i32, hi: i32) -> i32 {
    x.max(lo).min(hi)
}

#[test]
fn fen_text_parses_back_to_the_same_position() {
    for fen in [
        "rnbqkbnr/pppppppp/8/8/8/8/PPPPPPPP/RNBQKBNR w KQkq - 0 1",
        "r3k2r/8/8/3pP3/8/8/8/R3K2R w Kq d6 7 12",
        "8/8/8/8/4Pp2/8/8/4K2k b - e3 0 40",
        "4k3/8/8/8/8/8/8/4K3 b - - 65535 65535",
    ] {
        let p = Position::from_fen(fen).unwrap();
        let again = Position::from_fen(&p.to_fen()).unwrap();
        assert_eq!(again, p, "{fen}");
        assert_eq!(again.to_fen(), fen);
    }
}

#[test]
fn repetition_key_ignores_clocks_and_transposition_key_does_not() {
    let a = Position::from_fen("4k3/8/8/8/8/8/8/R3K3 w Q - 0 1").unwrap();
    let b = Position::from_fen("4k3/8/8/8/8/8/8/R3K3 w Q - 7 30").unwrap();
    assert_eq!(repetition_key(&a), repetition_key(&b));
    assert_ne!(hash_position(&a), hash_position(&b));
    assert_ne!(a.zobrist_hash(), b.zobrist_hash());
}

#[test]
fn windowed_quiescence_agrees_with_the_full_window() {
    for fen in [
        "4k3/8/8/3q4/4P3/8/8/4K3 w - - 0 1",
        "r1bqkbnr/pppp1ppp/2n5/4p3/3PP3/5N2/PPP2PPP/RNBQKB1R b KQkq d3 0 3",
        "7k/6Q1/6K1/8/8/8/8/8 b - - 0 1",
    ] {
        let mut p = Position::from_fen(fen).unwrap();
        let full = Searcher::without_transposition_table().quiescence(&mut p, -INF, INF, 1);
        for (alpha, beta) in [(-INF, 0), (-50, 50), (0, INF), (-200, -100), (100, 900)] {
            let r = Searcher::without_transposition_table().quiescence(&mut p, alpha, beta, 1);
            assert_eq!(clamp(r, alpha, beta), clamp(full, alpha, beta), "{fen} [{alpha}, {beta}]");
        }
    }
}

#[test]
fn windowed_negamax_agrees_with_the_full_window() {
    for fen in [
        "rnbqkbnr/pppppppp/8/8/8/8/PPPPPPPP/RNBQKBNR w KQkq - 0 1",
        "4k3/8/8/3q4/4P3/8/8/4K3 w - - 0 1",
    ] {
        let mut p = Position::from_fen(fen).unwrap();
        let full = Searcher::without_transposition_table().negamax(&mut p, 2, -INF, INF, 1);
        for (alpha, beta) in [(-INF, 0), (-30, 30), (0, INF), (-500, -400)] {
            let r = Searcher::without_transposition_table().negamax(&mut p, 2, alpha, beta, 1);
            assert_eq!(clamp(r, alpha, beta), clamp(full, alpha, beta), "{fen} [{alpha}, {beta}]");
        }
    }
}

#[test]
fn root_search_reports_the_best_child_value() {
    let mut p = Position::from_fen("4k3/8/8/3q4/4P3/8/8/4K3 w - - 0 1").unwrap();
    let result = Searcher::without_transposition_table().search(&mut p, 2, None);
    assert_eq!(result.depth, 2);
    let root_key = repetition_key(&p);
    let mut best = -INF;
    for mv in rookery::movegen::legal_moves(&mut p) {
        let undo = p.make_move(mv);
        let mut searcher = Searcher::without_transposition_table();
        searcher.set_path(vec![root_key, repetition_key(&p)]);
        let value = -searcher.negamax(&mut p, 1, -INF, INF, 1);
        p.unmake_move(mv, undo);
        best = best.max(value);
    }
    assert_eq!(result.score, best);
    assert_eq!(result.best_move.unwrap().to_uci(), "e4d5");
}

#[test]
fn table_search_reports_its_iterations_over_one_table() {
    for fen in [
        "rnbqkbnr/pppppppp/8/8/8/8/PPPPPPPP/RNBQKBNR w KQkq - 0 1",
        "4k3/8/8/3q4/4P3/8/8/4K3 w - - 0 1",
    ] {
        let mut p = Position::from_fen(fen).unwrap();
        let max_depth: u8 = 3;
        let result = Searcher::new().search(&mut p, max_depth, None);
        let root_key = repetition_key(&p);
        let mut searcher = Searcher::new();
        let mut expected = (0, None, 0u8);
        for depth in 1..=max_depth {
            let mut alpha = -INF;
            let mut best = None;
            for mv in rookery::movegen::legal_moves(&mut p) {
                let undo = p.make_move(mv);
                searcher.set_path(vec![root_key, repetition_key(&p)]);
                let value = -searcher.negamax(&mut p, depth - 1, -INF, -alpha, 1);
                p.unmake_move(mv, undo);
                if value > alpha {
                    alpha = value;
                    best = Some(mv);
                }
            }
            if best.is_some() {
                expected = (alpha, best, depth);
            }
        }
        assert_eq!((result.score, result.best_move, result.depth), expected);
        assert_eq!(result.depth, max_depth);
        assert!(result.nodes > 0);
        assert_eq!(result.nodes, searcher.nodes());
    }
}

#[test]
fn en_passant_counts_in_the_key_exactly_when_a_legal_capture_exists() {
    for (fen, capturable) in [
        ("rnbqkbnr/ppp1pppp/8/8/3pP3/8/PPPP1PPP/RNBQKBNR b KQkq e3 0 1", true),
        ("8/8/8/8/k2pP2R/8/8/4K3 b - e3 0 1", false),
    ] {
        let mut p = Position::from_fen(fen).unwrap();
        let without = Position::from_fen(&fen.replace(" e3 ", " - ")).unwrap();
        let target = rookery::Square::from_name("e3").unwrap();
        let moves = rookery::movegen::legal_moves(&mut p);
        let has_capture = moves.iter().any(|m| {
            m.to == target
                && matches!(p.piece_at(m.from), Some(pc) if pc.kind == rookery::PieceKind::Pawn)
        });
        assert_eq!(has_capture, capturable);
        assert_eq!(repetition_key(&p) != repetition_key(&without), capturable);
    }
}

#[test]
fn pseudo_legal_moves_are_distinct_own_moves_with_all_promotions() {
    for fen in [
        "rnbqkbnr/pppppppp/8/8/8/8/PPPPPPPP/RNBQKBNR w KQkq - 0 1",
        "r3k2r/p1ppqpb1/bn2pnp1/3PN3/1p2P3/2N2Q1p/PPPBBPPP/R3K2R w KQkq - 0 1",
        "n1n5/PPPk4/8/8/8/8/4Kppp/5N1N b - - 0 1",
    ] {
        let p = Position::from_fen(fen).unwrap();
        let moves = rookery::movegen::pseudo_legal_moves(&p);
        for (i, m) in moves.iter().enumerate() {
            assert!(!moves[i + 1..].contains(m));
            let pc = p.piece_at(m.from).unwrap();
            assert_eq!(pc.color, p.side_to_move());
            if let Some(target) = p.piece_at(m.to) {
                assert_ne!(target.color, p.side_to_move());
                assert_ne!(target.kind, rookery::PieceKind::King);
            }
            let last_rank = m.to.rank() == 0 || m.to.rank() == 7;
            assert_eq!(m.promotion.is_some(), pc.kind == rookery::PieceKind::Pawn && last_rank);
            if m.promotion.is_some() {
                let same_step = moves.iter().filter(|n| n.from == m.from && n.to == m.to).count();
                assert_eq!(same_step, 4);
            }
        }
    }
}

#[test]
fn dead_material_follows_the_bitboard_rule() {
    const LIGHT: u64 = 0x55aa_55aa_55aa_55aa;
    for fen in [
        "4k3/8/8/8/8/8/8/4K3 w - - 0 1",
        "4k3/8/8/8/8/8/8/2N1K3 w - - 0 1",
        "4k3/8/8/8/8/8/8/1NN1K3 w - - 0 1",
        "4k3/8/8/8/8/8/8/2B1KB2 w - - 0 1",
        "4k3/8/8/8/8/8/8/3BKB2 w - - 0 1",
        "4k3/2b5/8/8/8/8/8/4KB2 w - - 0 1",
        "4k3/8/8/8/8/8/8/2B1K1N1 w - - 0 1",
        "4k3/8/8/8/8/8/4P3/4K3 w - - 0 1",
        "rnbqkbnr/pppppppp/8/8/8/8/PPPPPPPP/RNBQKBNR w KQkq - 0 1",
    ] {
        let p = Position::from_fen(fen).unwrap();
        let both = |k: PieceKind| p.pieces(Color::White, k) | p.pieces(Color::Black, k);
        let (pawns, knights, bishops) = (both(PieceKind::Pawn), both(PieceKind::Knight), both(PieceKind::Bishop));
        let (rooks, queens) = (both(PieceKind::Rook), both(PieceKind::Queen));
        let rule = pawns | rooks | queens == 0
            && ((bishops == 0 && knights.count_ones() <= 1)
                || (knights == 0 && (bishops & LIGHT == 0 || bishops & !LIGHT == 0)));
        assert_eq!(p.is_insufficient_material(), rule, "{fen}");
    }
}

#[test]
fn positions_reached_by_legal_moves_write_and_read_back() {
    let mut p = Position::from_fen("r3k2r/P2p4/8/3pP3/8/8/8/R3K2R w KQkq d6 17 42").unwrap();
    let mut line = Vec::new();
    for _ in 0..12 {
        assert_eq!(Position::from_fen(&p.to_fen()), Ok(p.clone()));
        let moves = rookery::movegen::legal_moves(&mut p);
        if moves.is_empty() {
            break;
        }
        let mv = moves[line.len() * 7 % moves.len()];
        let undo = p.make_move(mv);
        line.push((mv, undo));
    }
    let start = Position::from_fen("r3k2r/P2p4/8/3pP3/8/8/8/R3K2R w KQkq d6 17 42").unwrap();
    while let Some((mv, undo)) = line.pop() {
        p.unmake_move(mv, undo);
    }
    assert_eq!(p, start);
}
