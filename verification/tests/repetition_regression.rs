use rookery::Position;
use rookery::hash::repetition_key;
use rookery::movegen::legal_moves;

fn position(fen: &str) -> Position {
    Position::from_fen(fen).unwrap()
}

fn has_legal_move(position: &mut Position, uci: &str) -> bool {
    legal_moves(position)
        .iter()
        .any(|candidate| candidate.to_uci() == uci)
}

#[test]
fn black_legal_en_passant_candidates_change_repetition_identity() {
    let with_target = position("4k3/8/8/8/2pPp3/8/8/4K3 b - d3 0 1");
    let without_target = position("4k3/8/8/8/2pPp3/8/8/4K3 b - - 0 1");
    let mut moves_position = with_target.clone();

    assert!(has_legal_move(&mut moves_position, "c4d3"));
    assert!(has_legal_move(&mut moves_position, "e4d3"));
    assert_ne!(
        repetition_key(&with_target),
        repetition_key(&without_target)
    );
}

#[test]
fn an_unpinned_en_passant_candidate_keeps_target_in_repetition_identity() {
    let with_target = position("8/8/8/2k5/2pPp3/8/8/2R1K3 b - d3 0 1");
    let without_target = position("8/8/8/2k5/2pPp3/8/8/2R1K3 b - - 0 1");
    let mut moves_position = with_target.clone();

    assert!(!has_legal_move(&mut moves_position, "c4d3"));
    assert!(has_legal_move(&mut moves_position, "e4d3"));
    assert_ne!(
        repetition_key(&with_target),
        repetition_key(&without_target)
    );
}

#[test]
fn legal_en_passant_hash_probe_does_not_mutate_position() {
    let position = position("4k3/8/8/8/2pPp3/8/8/4K3 b - d3 17 42");
    let original = position.clone();
    let original_fen = position.to_fen();
    let original_hash = position.zobrist_hash();

    let first_key = repetition_key(&position);
    let second_key = repetition_key(&position);

    assert_eq!(first_key, second_key);
    assert_eq!(position, original);
    assert_eq!(position.to_fen(), original_fen);
    assert_eq!(position.zobrist_hash(), original_hash);
}

#[test]
fn repetition_ignores_en_passant_without_an_adjacent_pawn() {
    let with_target = position("4k3/8/8/3p4/8/8/8/4K3 w - d6 0 1");
    let without_target = position("4k3/8/8/3p4/8/8/8/4K3 w - - 0 1");
    assert_eq!(
        repetition_key(&with_target),
        repetition_key(&without_target)
    );
}

#[test]
fn repetition_ignores_pseudo_legal_but_pinned_en_passant() {
    let with_target = position("8/6bb/8/8/R1pP2k1/4P3/P7/K7 b - d3 0 1");
    let without_target = position("8/6bb/8/8/R1pP2k1/4P3/P7/K7 b - - 0 1");
    let mut moves = with_target.clone();
    assert!(
        !legal_moves(&mut moves)
            .iter()
            .any(|mv| mv.to_uci() == "c4d3")
    );
    assert_eq!(
        repetition_key(&with_target),
        repetition_key(&without_target)
    );
}

#[test]
fn repetition_includes_a_legal_en_passant_file() {
    let with_target = position("4k3/8/8/3pP3/8/8/8/4K3 w - d6 0 1");
    let without_target = position("4k3/8/8/3pP3/8/8/8/4K3 w - - 0 1");
    let mut moves = with_target.clone();
    assert!(
        legal_moves(&mut moves)
            .iter()
            .any(|mv| mv.to_uci() == "e5d6")
    );
    assert_ne!(
        repetition_key(&with_target),
        repetition_key(&without_target)
    );
}

#[test]
fn hash_keys_match_the_splitmix_generator() {
    // The first output of SplitMix64 seeded with the golden gamma keys a white pawn on a1.
    let p = position("8/8/8/8/8/8/8/P7 w - - 0 1");
    let empty = position("8/8/8/8/8/8/8/8 w - - 0 1");
    assert_ne!(repetition_key(&p), repetition_key(&empty));
    let clock = position("8/8/8/8/8/8/8/P7 w - - 9 1");
    assert_eq!(repetition_key(&p), repetition_key(&clock));
    assert_ne!(p.zobrist_hash(), clock.zobrist_hash());
    assert_eq!(
        p.zobrist_hash() ^ clock.zobrist_hash(),
        9u64.wrapping_mul(0x517c_c1b7_2722_0a95)
    );
}
