use rookery::Position;
use rookery::hash;
use rookery::movegen::legal_moves;
use rookery::search::{
    MATE, MAX_PLY, Searcher, evaluate, is_capture, order_captures_first, score_from_tt, score_to_tt,
};
use std::time::Duration;

fn play(p: &mut Position, text: &str) {
    let mv = legal_moves(p).into_iter().find(|m| m.to_uci() == text).unwrap();
    p.make_move(mv);
}

#[test]
fn start_position_search_returns_legal_move() {
    let mut p = Position::startpos();
    let result = Searcher::new().search(&mut p, 3, None);
    assert_eq!(result.depth, 3);
    assert!(legal_moves(&mut p).contains(&result.best_move.unwrap()));
    assert!(result.nodes > 0);
}

#[test]
fn repetition_identity_excludes_halfmove_clock_but_tt_key_does_not() {
    let mut p = Position::startpos();
    let start_rep = hash::repetition_key(&p);
    let start_tt = p.zobrist_hash();
    for text in ["g1f3", "g8f6", "f3g1", "f6g8"] {
        play(&mut p, text);
    }
    assert_eq!(hash::repetition_key(&p), start_rep);
    assert_ne!(p.zobrist_hash(), start_tt);
}

#[test]
fn repetition_requires_three_occurrences_in_reversible_suffix() {
    let mut p = Position::startpos();
    let key = hash::repetition_key(&p);
    let mut history = vec![key];
    for text in ["g1f3", "g8f6", "f3g1", "f6g8", "g1f3", "g8f6", "f3g1", "f6g8"] {
        play(&mut p, text);
        history.push(hash::repetition_key(&p));
    }
    history.pop(); // search adds the current position itself
    let repeated = Searcher::new().search_with_history(&mut p, 1, None, &history);
    assert_eq!(repeated.depth, 0);
    assert_eq!(repeated.score, 0);
    assert_eq!(repeated.best_move, None);

    let mut p =
        Position::from_fen("rnbqkbnr/pppppppp/8/8/4P3/8/PPPP1PPP/RNBQKBNR b KQkq e3 0 1").unwrap();
    let key = hash::repetition_key(&p);
    // These matching positions are in history before the pawn move; clock 0
    // means none of that prefix can contribute to repetition.
    let beyond_irreversible_prefix = Searcher::new().search_with_history(&mut p, 1, None, &[key, key]);
    assert_eq!(beyond_irreversible_prefix.depth, 1);
    assert!(beyond_irreversible_prefix.best_move.is_some());
}

#[test]
fn insufficient_material_is_a_root_and_interior_search_draw() {
    let mut p = Position::from_fen("4k3/8/8/8/8/8/8/3NK3 w - - 0 1").unwrap();
    let result = Searcher::new().search(&mut p, 3, None);
    assert_eq!(result.depth, 0);
    assert_eq!(result.score, 0);
    assert_eq!(result.best_move, None);

    let mut p = Position::from_fen("4k3/8/8/8/8/8/8/3NK3 w - - 0 1").unwrap();
    let mut searcher = Searcher::new();
    assert_eq!(searcher.negamax(&mut p, 2, -32_000, 32_000, 1), 0);
    assert_eq!(searcher.quiescence(&mut p, -32_000, 32_000, 1), 0);
}

#[test]
fn root_halfmove_clock_draw_returns_no_move() {
    let mut p =
        Position::from_fen("rnbqkbnr/pppppppp/8/8/8/8/PPPPPPPP/RNBQKBNR w KQkq - 100 51").unwrap();
    let result = Searcher::new().search_with_history(&mut p, 4, None, &[]);
    assert_eq!(result.depth, 0);
    assert_eq!(result.score, 0);
    assert_eq!(result.best_move, None);
}

#[test]
fn terminal_root_takes_precedence_over_repetition_and_halfmove_draw() {
    for (fen, expected_score) in [
        ("7k/6Q1/6K1/8/8/8/8/8 b - - 100 1", -30_000),
        ("7k/5Q2/6K1/8/8/8/8/8 b - - 100 1", 0),
    ] {
        let mut p = Position::from_fen(fen).unwrap();
        let key = hash::repetition_key(&p);
        let result = Searcher::new().search_with_history(&mut p, 4, None, &[key, key]);
        assert_eq!(result.depth, 0);
        assert_eq!(result.score, expected_score);
        assert_eq!(result.best_move, None);
    }
}

#[test]
// Exercises both negamax and qsearch terminal-first behavior: mate remains a mate,
// and stalemate remains a draw, even when repetition and the 100-halfmove rule apply.
fn interior_terminal_positions_precede_repetition_and_halfmove_draws() {
    for (fen, expected) in [
        ("7k/6Q1/6K1/8/8/8/8/8 b - - 100 1", -29_996),
        ("7k/5Q2/6K1/8/8/8/8/8 b - - 100 1", 0),
    ] {
        let mut p = Position::from_fen(fen).unwrap();
        let key = hash::repetition_key(&p);
        let mut searcher = Searcher::new();
        searcher.set_path(vec![key, key]);
        assert_eq!(searcher.negamax(&mut p, 2, -32_000, 32_000, 4), expected);
        assert_eq!(searcher.quiescence(&mut p, -32_000, 32_000, 4), expected);
    }
}

#[test]
fn quiescence_stalemate_precedes_draw_and_stand_pat_cutoff() {
    let mut p = Position::from_fen("7k/5Q2/6K1/8/8/8/8/8 b - - 100 1").unwrap();
    let original = p.clone();
    let mut searcher = Searcher::new();
    searcher.set_path(vec![hash::repetition_key(&p); 2]);
    assert_eq!(searcher.quiescence(&mut p, -32_000, -31_999, 1), 0);
    assert_eq!(p, original);

    let mut p = Position::startpos();
    let mut searcher = Searcher::new();
    let beta = 0;
    assert_eq!(searcher.quiescence(&mut p, -32_000, beta, 1), beta);
    assert_eq!(searcher.nodes(), 1);
}

#[test]
fn insufficient_material_stalemate_is_recognized_as_terminal_at_root_and_qsearch() {
    // Black is stalemated; the lone bishop also qualifies as insufficient material.
    let mut p = Position::from_fen("7k/5B2/6K1/8/8/8/8/8 b - - 0 1").unwrap();
    assert!(p.is_insufficient_material());
    assert!(legal_moves(&mut p).is_empty());
    let root = Searcher::new().search(&mut p, 2, None);
    assert_eq!(root.score, 0);
    assert_eq!(root.best_move, None);

    let mut searcher = Searcher::new();
    assert_eq!(searcher.negamax(&mut p, 2, -32_000, 32_000, 1), 0);
    assert_eq!(searcher.quiescence(&mut p, -32_000, 32_000, 1), 0);
}

#[test]
fn quiescence_returns_draw_for_noncheck_stalemate() {
    // Black to move is stalemated in this position.
    let mut p = Position::from_fen("7k/5Q2/6K1/8/8/8/8/8 b - - 0 1").unwrap();
    assert_eq!(Searcher::new().quiescence(&mut p, -32_000, 32_000, 1), 0);
}

#[test]
fn transposition_table_mate_scores_are_ply_normalized() {
    assert_eq!(score_from_tt(score_to_tt(MATE - 9, 7), 7), MATE - 9);
    assert_eq!(score_from_tt(score_to_tt(-MATE + 9, 7), 7), -MATE + 9);
    assert_eq!(score_from_tt(score_to_tt(MATE - 9, 7), 3), MATE - 5);
    assert_eq!(score_from_tt(score_to_tt(-MATE + 9, 7), 3), -MATE + 5);
}

#[test]
fn transposition_table_normalizes_mate_window_boundaries() {
    let positive_boundary = MATE - MAX_PLY as i32;
    let negative_boundary = -MATE + MAX_PLY as i32;

    assert_eq!(score_from_tt(score_to_tt(positive_boundary, 7), 3), positive_boundary + 4);
    assert_eq!(score_from_tt(score_to_tt(negative_boundary, 7), 3), negative_boundary - 4);
}

#[test]
fn transposition_table_preserves_result_and_reduces_nodes() {
    let mut with_tt_position = Position::startpos();
    let with_tt = Searcher::new().search(&mut with_tt_position, 4, None);
    let mut without_tt_position = Position::startpos();
    let without_tt =
        Searcher::without_transposition_table().search(&mut without_tt_position, 4, None);

    assert_eq!(with_tt.depth, without_tt.depth);
    assert_eq!(with_tt.score, without_tt.score);
    assert_eq!(with_tt.best_move, without_tt.best_move);
    assert_eq!(with_tt_position, without_tt_position);
    assert!(with_tt.nodes < without_tt.nodes);
}

#[test]
fn tiny_time_limit_still_returns_a_legal_fallback() {
    let mut p = Position::startpos();
    let result = Searcher::new().search(&mut p, 20, Some(Duration::from_millis(1)));
    assert!(legal_moves(&mut p).contains(&result.best_move.unwrap()));
}

#[test]
fn evaluation_is_symmetric_at_the_start_and_counts_material() {
    let p = Position::startpos();
    assert_eq!(evaluate(&p), 0);
    // White has an extra queen on d1 (centrality 3: 900), Black to move sees it negated.
    let q = Position::from_fen("4k3/8/8/8/8/8/8/3QK3 w - - 0 1").unwrap();
    assert_eq!(evaluate(&q), 900);
    let q = Position::from_fen("4k3/8/8/8/8/8/8/3QK3 b - - 0 1").unwrap();
    assert_eq!(evaluate(&q), -900);
    // A white pawn on e4 is worth 100 + 3 ranks * 4; a black knight on d5 330 - ... from
    // Black's side: 320 + centrality 6 * 3 = 338.
    let r = Position::from_fen("4k3/8/8/3n4/4P3/8/8/4K3 w - - 0 1").unwrap();
    assert_eq!(evaluate(&r), 112 - 338);
}

#[test]
fn table_scores_round_trip_at_the_storing_ply() {
    for score in [-MATE, -MATE + 63, -100, 0, 250, MATE - 64, MATE] {
        for ply in [0usize, 1, 17, 63] {
            assert_eq!(score_from_tt(score_to_tt(score, ply), ply), score);
        }
    }
    assert_eq!(score_to_tt(i32::MAX, 5), i32::MAX);
    assert_eq!(score_to_tt(i32::MIN + 2, 5), i32::MIN);
    assert_eq!(score_to_tt(1234, 5), 1234);
}

#[test]
fn captures_are_ordered_first() {
    let mut p = Position::from_fen("4k3/8/8/3p4/4P3/8/8/4K3 w - - 0 1").unwrap();
    let moves = legal_moves(&mut p);
    let ordered = order_captures_first(&p, &moves);
    assert_eq!(ordered.len(), moves.len());
    assert_eq!(ordered[0].to_uci(), "e4d5");
    assert!(is_capture(&p, ordered[0]));
    assert!(ordered[1..].iter().all(|m| !is_capture(&p, *m)));
}

#[test]
fn en_passant_counts_as_a_capture() {
    let p = Position::from_fen("4k3/8/8/3pP3/8/8/8/4K3 w - d6 0 1").unwrap();
    let mut q = p.clone();
    let ep = legal_moves(&mut q).into_iter().find(|m| m.to_uci() == "e5d6").unwrap();
    assert!(is_capture(&p, ep));
}

#[test]
fn stopped_search_keeps_the_fallback_move() {
    let mut p = Position::from_fen("4k3/8/8/3p4/4P3/8/8/4K3 w - - 0 1").unwrap();
    let flag = std::sync::Arc::new(std::sync::atomic::AtomicBool::new(true));
    let result =
        Searcher::new().search_with_history_cancelled(&mut p, 5, None, &[], Some(flag));
    assert_eq!(result.depth, 0);
    assert_eq!(result.score, 0);
    assert_eq!(result.best_move.unwrap().to_uci(), "e4d5");
}

#[test]
fn quiescence_finds_a_winning_capture() {
    // White to move wins the undefended queen on d5.
    let mut p = Position::from_fen("4k3/8/8/3q4/4P3/8/8/4K3 w - - 0 1").unwrap();
    let mut searcher = Searcher::new();
    let score = searcher.quiescence(&mut p, -32_000, 32_000, 1);
    assert!(score > 0);
}
