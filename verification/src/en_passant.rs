//! The en-passant part of the repetition key against the legal moves: the key names the
//! en-passant square exactly when the side to move has a legal en-passant capture.
use vstd::prelude::*;
use crate::attacks::{is_square, lemma_coords_square, lemma_square_coords, pawn_dir, pawn_target};
use crate::bitboard::{Color, PieceKind, Square, file_of, offset_index};
use crate::chess_move::{Move, Promotion};
use crate::hash::{
    GAMMA, MIX1, MIX2, board_key, castling_key, pieces_key, side_key, en_passant_key, en_passant_capture_is_safe, wmul, has_safe_en_passant_capture, legal_en_passant,
    occupied_after_en_passant, pawns_without,
};
use crate::movegen::{
    attacked_with, attacker_at, castle_move, castle_moves, can_castle_kingside,
    can_castle_queenside, is_in_check, is_move_target, keeps_king_safe, legal_seq, moves_between,
    occupied_of, pawn_reaches, pawns_of, promotes, pseudo_legal_seq, reaches, safe_moves,
    square_moves, target_moves,
};
use crate::move_laws::{
    lemma_concat_contains, lemma_moves_between_ends, lemma_safe_moves_contains,
    lemma_square_moves_include, lemma_square_moves_source, lemma_target_moves_include,
    lemma_target_moves_source,
};
use crate::position::{
    PositionView, board_after, capture_square, count_squares, is_color, is_king_of, is_kind,
    is_piece, king_square_of, lemma_count_two, spec_make,
};

verus! {

broadcast use {Square::lemma_view_bounds, Square::lemma_from_index, Square::lemma_from_index_view};

proof fn lemma_count_agree(f: spec_fn(int) -> bool, g: spec_fn(int) -> bool, n: int)
    requires
        forall|i: int| 0 <= i < n ==> #[trigger] f(i) == g(i),
    ensures
        count_squares(f, n) == count_squares(g, n),
    decreases n,
{
    if n > 0 {
        lemma_count_agree(f, g, n - 1);
    }
}

proof fn lemma_count_witness(f: spec_fn(int) -> bool, n: int)
    requires
        count_squares(f, n) > 0,
    ensures
        exists|i: int| 0 <= i < n && #[trigger] f(i),
    decreases n,
{
    if n > 0 && !f(n - 1) {
        lemma_count_witness(f, n - 1);
    }
}

/// The en-passant setting of the law: the target `t` is empty, an enemy pawn stands on `cap`
/// behind it, and the side to move has exactly one king, on `k`.
pub open spec fn en_passant_setting(v: PositionView, t: Square, cap: int, k: int) -> bool {
    &&& v.board.len() == 64
    &&& v.en_passant == Some(t)
    &&& t@ < 64
    &&& v.board[t@] is None
    &&& offset_index(t@, 0, -pawn_dir(v.side)) == Some(cap)
    &&& is_piece(v.board[cap], v.side.spec_opposite(), PieceKind::Pawn)
    &&& king_square_of(v.board, v.side) == Some(k)
}

/// A pawn of the side to move capturing en passant from `from` keeps its king safe exactly
/// when, with the captured pawn gone and the squares changed, no enemy piece attacks the king.
proof fn lemma_en_passant_safety(v: PositionView, t: Square, cap: int, k: int, from: int, m: Move)
    requires
        en_passant_setting(v, t, cap, k),
        is_square(from),
        is_piece(v.board[from], v.side, PieceKind::Pawn),
        pawn_target(v.side, from, t@),
        m.from@ == from,
        m.to == t,
    ensures
        keeps_king_safe(v, m) == !attacked_with(
            v.board,
            k,
            v.side.spec_opposite(),
            pawns_without(v.board, v.side.spec_opposite(), cap),
            occupied_after_en_passant(v.board, from, cap, t@),
        ),
{
    let us = v.side;
    let them = us.spec_opposite();
    let b = v.board;
    let moved = b[from]->0;
    lemma_square_coords(t@);
    lemma_coords_square(t@ % 8, t@ / 8 - pawn_dir(us));
    assert(capture_square(v, moved, m) == cap);
    let nb = board_after(v, m);
    let after = spec_make(v, m);
    assert(after.board == nb);
    assert(nb.len() == 64);
    assert(cap != from && cap != t@ && from != t@);
    assert forall|i: int| 0 <= i < 64 && i != from && i != cap && i != t@ implies nb[i] == b[i] by {}
    assert(nb[from] is None);
    assert(nb[cap] is None);
    assert(is_color(nb[t@], us));
    // The king stays where it is.
    assert forall|i: int| 0 <= i < 64 implies #[trigger] is_king_of(nb, us)(i) == is_king_of(b, us)(i) by {}
    lemma_count_agree(is_king_of(nb, us), is_king_of(b, us), 64);
    assert(count_squares(is_king_of(b, us), 64) == 1);
    let kn = choose|i: int| 0 <= i < 64 && is_piece(nb[i], us, PieceKind::King);
    lemma_count_witness(is_king_of(b, us), 64);
    assert(is_piece(b[k], us, PieceKind::King));
    assert(is_king_of(nb, us)(k));
    assert(is_piece(nb[k], us, PieceKind::King));
    assert(is_piece(nb[kn], us, PieceKind::King));
    assert(is_king_of(b, us)(kn));
    if kn != k {
        lemma_count_two(is_king_of(b, us), 64, k, kn);
    }
    assert(king_square_of(nb, us) == Some(k));
    // The attackers are the same.
    assert(pawns_of(nb, them) =~= pawns_without(b, them, cap));
    assert(occupied_of(nb) =~= occupied_after_en_passant(b, from, cap, t@));
    let pw = pawns_without(b, them, cap);
    let oc = occupied_after_en_passant(b, from, cap, t@);
    assert forall|s: int| is_square(s) implies #[trigger] attacker_at(nb, k, them, pw, oc, s)
        == attacker_at(b, k, them, pw, oc, s) by {}
    if attacked_with(nb, k, them, pw, oc) {
        let s = choose|s: int| is_square(s) && #[trigger] attacker_at(nb, k, them, pw, oc, s);
        assert(attacker_at(b, k, them, pw, oc, s));
    }
    if attacked_with(b, k, them, pw, oc) {
        let s = choose|s: int| is_square(s) && #[trigger] attacker_at(b, k, them, pw, oc, s);
        assert(attacker_at(nb, k, them, pw, oc, s));
    }
    assert(attacked_with(nb, k, them, pw, oc) == attacked_with(b, k, them, pw, oc));
    assert(is_in_check(after, us) == attacked_with(nb, k, them, pawns_of(nb, them), occupied_of(nb)));
}

/// A pawn of the side to move on `from` reaches `to` with its double step.
spec fn double_step_reaches(v: PositionView, from: int, to: int) -> bool {
    let d = pawn_dir(v.side);
    offset_index(from, 0, d) is Some && v.board[offset_index(from, 0, d)->0] is None && offset_index(
        from,
        0,
        2 * d,
    ) == Some(to)
}

/// The en-passant square counts in the repetition key exactly when the side to move has a legal
/// en-passant capture: with the target empty, an enemy pawn behind it and exactly one king of
/// the side to move, `legal_en_passant` names the target if and only if some legal move takes a
/// pawn of the side to move onto it.
pub proof fn lemma_en_passant_key_iff_legal_capture(v: PositionView, t: Square, cap: int, k: int)
    requires
        en_passant_setting(v, t, cap, k),
    ensures
        (legal_en_passant(v) == Some(t)) <==> exists|m: Move|
            #[trigger] legal_seq(v).contains(m) && m.to == t && is_kind(v.board[m.from@], PieceKind::Pawn),
        legal_en_passant(v) != Some(t) ==> legal_en_passant(v) is None,
{
    let us = v.side;
    let them = us.spec_opposite();
    let b = v.board;
    lemma_square_coords(t@);
    if legal_en_passant(v) == Some(t) {
        assert(has_safe_en_passant_capture(v, t@, cap, k));
        let from = choose|from: int| #[trigger] en_passant_capture_is_safe(v, from, t@, cap, k);
        let m = Move {
            from: Square::from_index(from),
            to: Square::from_index(t@),
            promotion: if promotes(v, from, t@) {
                Some(Promotion::Queen)
            } else {
                None
            },
        };
        assert(m.to == t);
        assert(moves_between(v, from, t@)[0] == m);
        assert(moves_between(v, from, t@).contains(m));
        assert(pawn_reaches(v, us, from, t@));
        assert(is_move_target(v, from, t@));
        lemma_target_moves_include(v, from, 64, t@, m);
        lemma_square_moves_include(v, 64, from, m);
        lemma_concat_contains(square_moves(v, 64), castle_moves(v), m);
        lemma_en_passant_safety(v, t, cap, k, from, m);
        lemma_safe_moves_contains(v, pseudo_legal_seq(v), m);
        assert(legal_seq(v).contains(m) && m.to == t && is_kind(b[m.from@], PieceKind::Pawn));
    }
    if exists|m: Move| #[trigger] legal_seq(v).contains(m) && m.to == t && is_kind(b[m.from@], PieceKind::Pawn) {
        let m = choose|m: Move| #[trigger] legal_seq(v).contains(m) && m.to == t && is_kind(b[m.from@], PieceKind::Pawn);
        lemma_safe_moves_contains(v, pseudo_legal_seq(v), m);
        lemma_concat_contains(square_moves(v, 64), castle_moves(v), m);
        let k1 = if can_castle_kingside(v) {
            seq![castle_move(v, 6)]
        } else {
            seq![]
        };
        let k2 = if can_castle_queenside(v) {
            seq![castle_move(v, 2)]
        } else {
            seq![]
        };
        lemma_concat_contains(k1, k2, m);
        assert(!castle_moves(v).contains(m));
        let from = lemma_square_moves_source(v, 64, m);
        let to = lemma_target_moves_source(v, from, 64, m);
        lemma_moves_between_ends(v, from, to, m);
        assert(to == t@);
        assert(is_piece(b[from], us, PieceKind::Pawn));
        assert(reaches(v, us, PieceKind::Pawn, from, t@));
        let d = pawn_dir(us);
        lemma_square_coords(from);
        if offset_index(from, 0, d) == Some(t@) {
            lemma_coords_square(from % 8, from / 8 + d);
            assert(from == cap);
        } else if double_step_reaches(v, from, t@) {
            lemma_coords_square(from % 8, from / 8 + d);
            lemma_coords_square(from % 8, from / 8 + 2 * d);
            assert(offset_index(from, 0, d) == Some(cap));
        }
        assert(pawn_target(us, from, t@));
        lemma_en_passant_safety(v, t, cap, k, from, m);
        assert(en_passant_capture_is_safe(v, from, t@, cap, k));
        assert(has_safe_en_passant_capture(v, t@, cap, k));
    }
}

/// None of the eight en-passant file keys is zero.
pub proof fn lemma_en_passant_keys_nonzero(file: int)
    requires
        0 <= file < 8,
    ensures
        en_passant_key(file) != 0,
{
    assert({
        &&& (0x648b354251fb748fu64 ^ (0x648b354251fb748fu64 >> 30u64)) == 0x648b3543c3d7a186u64
        &&& (0xb9b10deceda897d6u64 ^ (0xb9b10deceda897d6u64 >> 27u64)) == 0xb9b10dfbdb892a4bu64
        &&& (0xc9270af44c13cdd9u64 ^ (0xc9270af44c13cdd9u64 >> 31u64)) == 0xc9270af5de5dd831u64
        &&& (0x2c2aefbd145f0a4u64 ^ (0x2c2aefbd145f0a4u64 >> 30u64)) == 0x2c2aefbda4f4b4bu64
        &&& (0x51d3b513f4738033u64 ^ (0x51d3b513f4738033u64 >> 27u64)) == 0x51d3b519ce05224du64
        &&& (0x17b0c924bdba99afu64 ^ (0x17b0c924bdba99afu64 >> 31u64)) == 0x17b0c92492db0be6u64
        &&& (0xa0fa28b550906cb9u64 ^ (0xa0fa28b550906cb9u64 >> 30u64)) == 0xa0fa28b7d378ce6cu64
        &&& (0x8edd432a8b23c80cu64 ^ (0x8edd432a8b23c80cu64 >> 27u64)) == 0x8edd433b508bad5du64
        &&& (0x65ef98554c88515fu64 ^ (0x65ef98554c88515fu64 >> 31u64)) == 0x65ef9855875761f5u64
        &&& (0x3f31a26ecfdae8ceu64 ^ (0x3f31a26ecfdae8ceu64 >> 30u64)) == 0x3f31a26e331c6175u64
        &&& (0x363c871beae4168du64 ^ (0x363c871beae4168du64 >> 27u64)) == 0x363c871d2d74f5f0u64
        &&& (0xf70f6fc161a2b350u64 ^ (0xf70f6fc161a2b350u64 >> 31u64)) == 0xf70f6fc08fbc6cd2u64
        &&& (0xdd691c284f2564e3u64 ^ (0xdd691c284f2564e3u64 >> 30u64)) == 0xdd691c2b3a811442u64
        &&& (0xc2522dda012eadb2u64 ^ (0xc2522dda012eadb2u64 >> 27u64)) == 0xc2522dc24b6b16f2u64
        &&& (0x31a80f56b2262226u64 ^ (0x31a80f56b2262226u64 >> 31u64)) == 0x31a80f56d1763c8bu64
        &&& (0x7ba095e1ce6fe0f8u64 ^ (0x7ba095e1ce6fe0f8u64 >> 30u64)) == 0x7ba095e020edb77fu64
        &&& (0xc4187a48c20a35c7u64 ^ (0xc4187a48c20a35c7u64 >> 27u64)) == 0xc4187a5041057cdfu64
        &&& (0x7195443381036fb5u64 ^ (0x7195443381036fb5u64 >> 31u64)) == 0x719544336229e7d2u64
        &&& (0x19d80f9b4dba5d0du64 ^ (0x19d80f9b4dba5d0du64 >> 30u64)) == 0x19d80f9b2ada6360u64
        &&& (0x6b8711b65436b060u64 ^ (0x6b8711b65436b060u64 >> 27u64)) == 0x6b8711bb24d486aau64
        &&& (0x297d5f175092e80eu64 ^ (0x297d5f175092e80eu64 >> 31u64)) == 0x297d5f1702685620u64
        &&& (0xb80f8954cd04d922u64 ^ (0xb80f8954cd04d922u64 >> 30u64)) == 0xb80f89562d3afc71u64
        &&& (0x5abfe4fea41582a9u64 ^ (0x5abfe4fea41582a9u64 >> 27u64)) == 0x5abfe4f5f3e91d7du64
        &&& (0xfecaaf174de05ebfu64 ^ (0xfecaaf174de05ebfu64 >> 31u64)) == 0xfecaaf16b0750091u64
    }) by (bit_vector);
    if file == 0 {
        assert(wmul(787u64, GAMMA) == 0x648b354251fb748fu64);
        assert(wmul(0x648b3543c3d7a186u64, MIX1) == 0xb9b10deceda897d6u64);
        assert(wmul(0xb9b10dfbdb892a4bu64, MIX2) == 0xc9270af44c13cdd9u64);
    }
    if file == 1 {
        assert(wmul(788u64, GAMMA) == 0x2c2aefbd145f0a4u64);
        assert(wmul(0x2c2aefbda4f4b4bu64, MIX1) == 0x51d3b513f4738033u64);
        assert(wmul(0x51d3b519ce05224du64, MIX2) == 0x17b0c924bdba99afu64);
    }
    if file == 2 {
        assert(wmul(789u64, GAMMA) == 0xa0fa28b550906cb9u64);
        assert(wmul(0xa0fa28b7d378ce6cu64, MIX1) == 0x8edd432a8b23c80cu64);
        assert(wmul(0x8edd433b508bad5du64, MIX2) == 0x65ef98554c88515fu64);
    }
    if file == 3 {
        assert(wmul(790u64, GAMMA) == 0x3f31a26ecfdae8ceu64);
        assert(wmul(0x3f31a26e331c6175u64, MIX1) == 0x363c871beae4168du64);
        assert(wmul(0x363c871d2d74f5f0u64, MIX2) == 0xf70f6fc161a2b350u64);
    }
    if file == 4 {
        assert(wmul(791u64, GAMMA) == 0xdd691c284f2564e3u64);
        assert(wmul(0xdd691c2b3a811442u64, MIX1) == 0xc2522dda012eadb2u64);
        assert(wmul(0xc2522dc24b6b16f2u64, MIX2) == 0x31a80f56b2262226u64);
    }
    if file == 5 {
        assert(wmul(792u64, GAMMA) == 0x7ba095e1ce6fe0f8u64);
        assert(wmul(0x7ba095e020edb77fu64, MIX1) == 0xc4187a48c20a35c7u64);
        assert(wmul(0xc4187a5041057cdfu64, MIX2) == 0x7195443381036fb5u64);
    }
    if file == 6 {
        assert(wmul(793u64, GAMMA) == 0x19d80f9b4dba5d0du64);
        assert(wmul(0x19d80f9b2ada6360u64, MIX1) == 0x6b8711b65436b060u64);
        assert(wmul(0x6b8711bb24d486aau64, MIX2) == 0x297d5f175092e80eu64);
    }
    if file == 7 {
        assert(wmul(794u64, GAMMA) == 0xb80f8954cd04d922u64);
        assert(wmul(0xb80f89562d3afc71u64, MIX1) == 0x5abfe4fea41582a9u64);
        assert(wmul(0x5abfe4f5f3e91d7du64, MIX2) == 0xfecaaf174de05ebfu64);
    }
}

/// `v` with its en-passant square cleared.
pub open spec fn without_en_passant(v: PositionView) -> PositionView {
    PositionView { en_passant: None, ..v }
}

/// The repetition key tells a position from the same position without its en-passant square
/// exactly when the side to move has a legal en-passant capture (in the setting above).
pub proof fn lemma_repetition_key_names_legal_en_passant(v: PositionView, t: Square, cap: int, k: int)
    requires
        en_passant_setting(v, t, cap, k),
    ensures
        (board_key(v) != board_key(without_en_passant(v))) <==> exists|m: Move|
            #[trigger] legal_seq(v).contains(m) && m.to == t && is_kind(v.board[m.from@], PieceKind::Pawn),
{
    lemma_en_passant_key_iff_legal_capture(v, t, cap, k);
    let q = without_en_passant(v);
    assert(legal_en_passant(q) is None);
    let a = castling_key(v.castling) ^ pieces_key(v.board, 64) ^ (if v.side == Color::White {
        0u64
    } else {
        side_key()
    });
    assert(board_key(q) == a ^ 0u64);
    if legal_en_passant(v) == Some(t) {
        let e = en_passant_key(file_of(t@));
        lemma_en_passant_keys_nonzero(file_of(t@));
        assert(board_key(v) == a ^ e);
        assert(e != 0 ==> a ^ e != a ^ 0u64) by (bit_vector);
    } else {
        assert(board_key(v) == a ^ 0u64);
    }
}

} // verus!
