use rookery::Color;
use rookery::movegen::perft_divide;
use rookery::search::{SearchResult, Searcher};
use rookery::uci::{
    UciAction, go_depth, increment_fits_line, parse_position, perft_depth, perft_report,
    search_report, search_time, uci_action,
};
use rookery::uci_loop::UciLoop;

#[test]
fn uci_position_history_detects_threefold_repetition_at_root() {
    let (mut position, history) = parse_position(
        "position startpos moves g1f3 g8f6 f3g1 f6g8 g1f3 g8f6 f3g1 f6g8",
    )
    .unwrap();
    assert_eq!(history.len(), 9);
    let prior = &history[..history.len() - 1];
    let result = Searcher::new().search_with_history(&mut position, 2, None, prior);
    let (info, best) = search_report(&result);
    assert_eq!(info, "info depth 0 score cp 0 nodes 0");
    assert_eq!(best, "bestmove 0000");
}

#[test]
fn uci_perft_reports_root_and_total() {
    let (mut position, _) = parse_position("position startpos").unwrap();
    let depth = perft_depth("go perft 2").unwrap();
    let lines = perft_report(&perft_divide(&mut position, depth));
    assert_eq!(lines.len(), 22);
    assert_eq!(lines[20], "nodes 400");
    assert_eq!(lines[21], "bestmove 0000");
    assert!(lines.iter().any(|l| l == "e2e4: 20"));
}

#[test]
fn position_lines_are_checked() {
    assert_eq!(parse_position("position").err(), Some("missing startpos or fen".to_string()));
    assert_eq!(parse_position("position nowhere").err(), Some("expected startpos or fen".to_string()));
    assert_eq!(
        parse_position("position fen 8/8/8/8/8/8/8/8 w - - 0").err(),
        Some("FEN position needs six fields".to_string())
    );
    assert_eq!(
        parse_position("position startpos moves e2e4 e7e9").err(),
        Some("invalid move e7e9".to_string())
    );
    assert_eq!(
        parse_position("position startpos moves e2e5").err(),
        Some("illegal move e2e5".to_string())
    );
    let (p, history) =
        parse_position("position fen 4k3/8/8/8/8/8/4P3/4K3 w - - 0 1 moves e2e4 e8d7").unwrap();
    assert_eq!(p.to_fen(), "8/3k4/8/8/4P3/8/8/4K3 w - - 1 2");
    assert_eq!(history.len(), 3);
    let (p, _) = parse_position("position startpos e2e4").unwrap();
    assert_eq!(p.side_to_move(), Color::Black);
}

#[test]
fn go_arguments_give_depth_and_time() {
    assert_eq!(go_depth("go"), 8);
    assert_eq!(go_depth("go depth 3"), 3);
    assert_eq!(go_depth("go depth 0"), 1);
    assert_eq!(go_depth("go depth 99"), 32);
    assert_eq!(go_depth("go depth 300"), 8);
    assert_eq!(perft_depth("go depth 3"), None);
    assert_eq!(perft_depth("go perft"), Some(1));
    assert_eq!(search_time("go movetime 0", Color::White), Some(1));
    assert_eq!(search_time("go movetime 250", Color::Black), Some(250));
    assert_eq!(search_time("go wtime 60000 winc 1000", Color::White), Some(2750));
    assert_eq!(search_time("go wtime 60000 winc 1000", Color::Black), None);
    assert_eq!(search_time("go btime 10 binc 0", Color::Black), Some(1));
    assert_eq!(search_time("go btime 20 binc 100", Color::Black), Some(20));
    assert_eq!(search_time("go depth 4", Color::White), None);
}

#[test]
fn commands_wait_for_a_running_search() {
    assert_eq!(uci_action("uci", false), UciAction::Identify);
    assert_eq!(uci_action("  isready  ", true), UciAction::Ready);
    assert_eq!(uci_action("position startpos", false), UciAction::SetPosition);
    assert_eq!(uci_action("position startpos", true), UciAction::Defer);
    assert_eq!(uci_action("go depth 1", true), UciAction::Defer);
    assert_eq!(uci_action("go depth 1", false), UciAction::Go);
    assert_eq!(uci_action("ucinewgame", false), UciAction::NewGame);
    assert_eq!(uci_action("stop", true), UciAction::Stop);
    assert_eq!(uci_action("quit", false), UciAction::Quit);
    assert_eq!(uci_action("", false), UciAction::Ignore);
    assert_eq!(uci_action("debug on", false), UciAction::Ignore);
}

#[test]
fn scores_are_reported_in_centipawns_or_moves_to_mate() {
    let mut result = SearchResult { best_move: None, score: 35, depth: 4, nodes: 1234 };
    assert_eq!(search_report(&result).0, "info depth 4 score cp 35 nodes 1234");
    result.score = -120;
    assert_eq!(search_report(&result).0, "info depth 4 score cp -120 nodes 1234");
    result.score = 29_999;
    assert_eq!(search_report(&result).0, "info depth 4 score mate 1 nodes 1234");
    result.score = -29_996;
    assert_eq!(search_report(&result).0, "info depth 4 score mate -2 nodes 1234");
    result.score = 40_000;
    assert_eq!(search_report(&result).0, "info depth 4 score mate -4999 nodes 1234");
}

#[test]
fn lines_wait_in_order_and_quit_suppresses_the_answer() {
    let mut state = UciLoop::new();
    assert!(!state.searching());
    assert_eq!(state.accept_line("go depth 3".to_string()), UciAction::Go);
    assert!(state.searching());
    assert_eq!(state.accept_line("position startpos moves e2e4".to_string()), UciAction::Defer);
    assert_eq!(state.accept_line("go depth 1".to_string()), UciAction::Defer);
    assert_eq!(state.accept_line("isready".to_string()), UciAction::Ready);
    assert_eq!(state.take_deferred(), None);
    assert!(state.finish_search());
    assert!(!state.searching());
    assert_eq!(state.take_deferred().as_deref(), Some("position startpos moves e2e4"));
    assert_eq!(state.take_deferred().as_deref(), Some("go depth 1"));
    assert_eq!(state.take_deferred(), None);

    assert_eq!(state.accept_line("go depth 2".to_string()), UciAction::Go);
    assert_eq!(state.accept_line("quit".to_string()), UciAction::Quit);
    assert!(!state.finish_search());

    let mut perft = UciLoop::new();
    assert_eq!(perft.accept_line("go perft 2".to_string()), UciAction::Go);
    assert!(!perft.searching());
    assert!(!perft.input_closed());

    let mut closing = UciLoop::new();
    assert_eq!(closing.accept_line("go".to_string()), UciAction::Go);
    assert!(closing.input_closed());
    assert!(!closing.finish_search());
}

#[test]
fn the_increment_matters_only_for_a_clock_budget() {
    let huge = "18446744073709551615";
    let with_movetime = format!("go movetime 5 winc {huge}");
    assert!(increment_fits_line(&with_movetime, Color::White));
    assert_eq!(search_time(&with_movetime, Color::White), Some(5));
    let without_clock = format!("go winc {huge}");
    assert!(increment_fits_line(&without_clock, Color::White));
    assert_eq!(search_time(&without_clock, Color::White), None);
    let with_clock = format!("go wtime 1000 winc {huge}");
    assert!(!increment_fits_line(&with_clock, Color::White));
    assert!(increment_fits_line(&with_clock, Color::Black));
    assert!(increment_fits_line("go wtime 60000 winc 1000", Color::White));
}

#[test]
fn checked_perft_agrees_with_perft_when_the_count_fits() {
    let mut p = rookery::Position::startpos();
    assert_eq!(rookery::movegen::perft_checked(&mut p, 0), Some(1));
    assert_eq!(rookery::movegen::perft_checked(&mut p, 3), Some(8902));
    let divide = rookery::movegen::perft_divide_checked(&mut p, 2).unwrap();
    assert_eq!(divide, perft_divide(&mut p, 2));
    assert_eq!(divide.len(), 20);
    assert!(divide.iter().all(|(_, n)| *n == 20));
    assert_eq!(rookery::movegen::perft_divide_checked(&mut p, 0), Some(Vec::new()));
}
