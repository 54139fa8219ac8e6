//! Zobrist keys for transposition lookups and repetition detection.
use vstd::prelude::*;
use crate::bits::{bit, lemma_bit_and, lemma_bit_or, lemma_bit_not};
use crate::bitboard::{Color, Piece, PieceKind, Square, file_of, offset_index};
use crate::attacks::{self, is_square, pawn_dir, pawn_target, occ, lemma_pawn_target_sym};
use crate::position::{Position, PositionView, is_piece, king_square_of, piece_index};
use crate::movegen::{attacked_with, attacked_by_bits};

verus! {

broadcast use {Square::lemma_view_bounds, Square::lemma_from_index, Square::lemma_from_index_view, Position::lemma_wf_view};

pub const GAMMA: u64 = 0x9e37_79b9_7f4a_7c15;

pub const MIX1: u64 = 0xbf58_476d_1ce4_e5b9;

pub const MIX2: u64 = 0x94d0_49bb_1331_11eb;

/// Multiplier that folds the halfmove clock into the transposition key.
pub const CLOCK_MULTIPLIER: u64 = 0x517c_c1b7_2722_0a95;

/// Multiplication modulo 2^64.
pub open spec fn wmul(x: u64, y: u64) -> u64 {
    ((x as nat * y as nat) % 0x1_0000_0000_0000_0000nat) as u64
}

/// The SplitMix64 finalizer.
pub open spec fn mix(z: u64) -> u64 {
    let z1 = wmul(z ^ (z >> 30u64), MIX1);
    let z2 = wmul(z1 ^ (z1 >> 27u64), MIX2);
    z2 ^ (z2 >> 31u64)
}

/// The `k`-th output (from 0) of the SplitMix64 generator seeded with `GAMMA`.
pub open spec fn zobrist_key(k: int) -> u64 {
    mix(wmul((k + 2) as u64, GAMMA))
}

/// Key of `p` standing on square `sq`.
pub open spec fn piece_key(p: Piece, sq: int) -> u64 {
    zobrist_key(piece_index(p) * 64 + sq)
}

pub open spec fn side_key() -> u64 {
    zobrist_key(768)
}

pub open spec fn castling_key(c: u8) -> u64 {
    zobrist_key(769 + c)
}

pub open spec fn en_passant_key(file: int) -> u64 {
    zobrist_key(785 + file)
}

/// XOR of the keys of the pieces on the squares below `n`.
pub open spec fn pieces_key(board: Seq<Option<Piece>>, n: int) -> u64
    decreases n,
{
    if n <= 0 {
        0
    } else {
        pieces_key(board, n - 1) ^ match board[n - 1] {
            Some(p) => piece_key(p, n - 1),
            None => 0u64,
        }
    }
}

/// Enemy pawns once the pawn on `captured` is taken.
pub open spec fn pawns_without(board: Seq<Option<Piece>>, c: Color, captured: int) -> spec_fn(int) -> bool {
    |i: int| is_square(i) && is_piece(board[i], c, PieceKind::Pawn) && i != captured
}

/// Occupied squares after a pawn moves from `from` to `target`, removing `captured`.
pub open spec fn occupied_after_en_passant(board: Seq<Option<Piece>>, from: int, captured: int, target: int) -> spec_fn(int) -> bool {
    |i: int| is_square(i) && ((board[i] is Some && i != from && i != captured) || i == target)
}

/// A pawn of the side to move on `from` can capture en passant onto `target` (removing the pawn
/// on `captured`) without leaving its king, on `king`, attacked.
pub open spec fn en_passant_capture_is_safe(v: PositionView, from: int, target: int, captured: int, king: int) -> bool {
    let us = v.side;
    let them = us.spec_opposite();
    &&& is_square(from)
    &&& is_piece(v.board[from], us, PieceKind::Pawn)
    &&& pawn_target(us, from, target)
    &&& !attacked_with(
        v.board,
        king,
        them,
        pawns_without(v.board, them, captured),
        occupied_after_en_passant(v.board, from, captured, target),
    )
}

/// Some own pawn can capture en passant onto `target` without exposing the king on `king`.
pub open spec fn has_safe_en_passant_capture(v: PositionView, target: int, captured: int, king: int) -> bool {
    exists|from: int| #[trigger] en_passant_capture_is_safe(v, from, target, captured, king)
}

/// The en-passant target, only when the side to move has at least one legal en-passant capture:
/// the target is empty, an enemy pawn stands behind it, the side to move has exactly one king,
/// and some own pawn can capture without exposing that king.
pub open spec fn legal_en_passant(v: PositionView) -> Option<Square> {
    match v.en_passant {
        None => None,
        Some(t) => {
            let us = v.side;
            if v.board[t@] is Some {
                None
            } else {
                match offset_index(t@, 0, -pawn_dir(us)) {
                    None => None,
                    Some(cap) => if !is_piece(v.board[cap], us.spec_opposite(), PieceKind::Pawn) {
                        None
                    } else {
                        match king_square_of(v.board, us) {
                            None => None,
                            Some(k) => if has_safe_en_passant_capture(v, t@, cap, k) {
                                Some(t)
                            } else {
                                None
                            },
                        }
                    },
                }
            }
        },
    }
}

/// Position identity for repetition: board, side, castling rights, and the en-passant file only
/// when a legal en-passant capture exists.
pub open spec fn board_key(v: PositionView) -> u64 {
    castling_key(v.castling) ^ pieces_key(v.board, 64) ^ (if v.side == Color::Black {
        side_key()
    } else {
        0u64
    }) ^ match legal_en_passant(v) {
        Some(e) => en_passant_key(file_of(e@)),
        None => 0u64,
    }
}

/// The transposition key: the repetition key with the halfmove clock folded in.
pub open spec fn position_key(v: PositionView) -> u64 {
    board_key(v) ^ wmul(v.halfmove as u64, CLOCK_MULTIPLIER)
}

pub fn mix64(z: u64) -> (r: u64)
    ensures
        r == mix(z),
{
    let z1 = (z ^ (z >> 30)).wrapping_mul(MIX1);
    let z2 = (z1 ^ (z1 >> 27)).wrapping_mul(MIX2);
    z2 ^ (z2 >> 31)
}

fn key(k: u64) -> (r: u64)
    requires
        k < 1000,
    ensures
        r == zobrist_key(k as int),
{
    mix64((k + 2).wrapping_mul(GAMMA))
}

fn en_passant_file_key(p: &Position) -> (r: u64)
    requires
        p.wf(),
    ensures
        r == match legal_en_passant(p@) {
            Some(e) => en_passant_key(file_of(e@)),
            None => 0u64,
        },
{
    match legal_en_passant_square(p) {
        Some(ep) => key(785 + ep.file() as u64),
        None => 0,
    }
}

fn board_key_of(p: &Position) -> (r: u64)
    requires
        p.wf(),
    ensures
        r == board_key(p@),
{
    let ghost board = p@.board;
    let mut pk: u64 = 0;
    let mut i: u8 = 0;
    while i < 64
        invariant
            0 <= i <= 64,
            p.wf(),
            board == p@.board,
            pk == pieces_key(board, i as int),
        decreases 64 - i,
    {
        let sq = Square::new(i).unwrap();
        match p.piece_at(sq) {
            Some(piece) => {
                let slot = (piece.color.index() * 6 + piece.kind.index()) as u64;
                pk = pk ^ key(slot * 64 + i as u64);
            },
            None => {
                pk = pk ^ 0;
            },
        }
        i = i + 1;
    }
    proof {
        p.lemma_wf_view();
    }
    let mut h = key(769 + p.castling_rights() as u64) ^ pk;
    h = h ^ match p.side_to_move() {
        Color::Black => key(768),
        Color::White => 0,
    };
    h ^ en_passant_file_key(p)
}

/// Position identity for repetition: board, side, castling, and an en-passant file only when the
/// side to move can legally capture en passant.
pub fn repetition_key(p: &Position) -> (r: u64)
    requires
        p.wf(),
    ensures
        r == board_key(p@),
{
    board_key_of(p)
}

/// The transposition key, which also depends on the halfmove clock.
pub fn hash_position(p: &Position) -> (r: u64)
    requires
        p.wf(),
    ensures
        r == position_key(p@),
{
    board_key_of(p) ^ (p.halfmove_clock() as u64).wrapping_mul(CLOCK_MULTIPLIER)
}

/// Returns the en-passant target only when at least one capture is legal. The capture is modelled
/// on temporary bitboards, so the position is not changed.
fn legal_en_passant_square(p: &Position) -> (r: Option<Square>)
    requires
        p.wf(),
    ensures
        r == legal_en_passant(p@),
{
    let ghost v = p@;
    let target = match p.en_passant_square() {
        Some(t) => t,
        None => {
            return None;
        },
    };
    let us = p.side_to_move();
    let them = us.opposite();
    if p.piece_at(target).is_some() {
        return None;
    }
    let captured = match target.offset(0, if us.is_white() { -1 } else { 1 }) {
        Some(c) => c,
        None => {
            return None;
        },
    };
    let cap_ok = match p.piece_at(captured) {
        Some(pc) => pc.color.index() == them.index() && pc.kind.index() == 0,
        None => false,
    };
    if !cap_ok {
        return None;
    }
    let king = match p.king_square(us) {
        Some(k) => k,
        None => {
            return None;
        },
    };
    let pa = attacks::pawn(target, them);
    let our_pawns = p.pieces(us, PieceKind::Pawn);
    let candidates = pa & our_pawns;
    proof {
        assert forall|j: int| 0 <= j < 64 implies #[trigger] bit(candidates, j) == (is_piece(v.board[j], us, PieceKind::Pawn) && pawn_target(them, target@, j)) by {
            lemma_bit_and(pa, our_pawns, j);
        }
    }
    let occupied = p.occupied();
    let cb = captured.bit();
    let tb = target.bit();
    let their_pawns = p.pieces(them, PieceKind::Pawn);
    let enemy_pawns = their_pawns & !cb;
    let ghost t = target@;
    let ghost cap = captured@;
    let ghost k = king@;
    proof {
        assert forall|i: int| #[trigger] occ(enemy_pawns)(i) == pawns_without(v.board, them, cap)(i) by {
            lemma_bit_and(their_pawns, !cb, i);
            lemma_bit_not(cb, i);
        }
        assert(occ(enemy_pawns) =~= pawns_without(v.board, them, cap));
    }
    let mut i: u8 = 0;
    while i < 64
        invariant
            0 <= i <= 64,
            p.wf(),
            v == p@,
            us == v.side,
            them == us.spec_opposite(),
            occ(enemy_pawns) == pawns_without(v.board, them, cap),
            forall|j: int| 0 <= j < 64 ==> #[trigger] bit(occupied, j) == (v.board[j] is Some),
            forall|j: int| #[trigger] bit(cb, j) == (j == cap),
            forall|j: int| #[trigger] bit(tb, j) == (j == t),
            forall|j: int| 0 <= j < 64 ==> #[trigger] bit(candidates, j) == (is_piece(v.board[j], us, PieceKind::Pawn) && pawn_target(them, t, j)),
            forall|j: int| 0 <= j < i ==> !#[trigger] en_passant_capture_is_safe(v, j, t, cap, k),
            t == target@,
            cap == captured@,
            k == king@,
            v.en_passant == Some(target),
            v.board[t] is None,
            offset_index(t, 0, -pawn_dir(us)) == Some(cap),
            is_piece(v.board[cap], them, PieceKind::Pawn),
            king_square_of(v.board, us) == Some(k),
        decreases 64 - i,
    {
        if (candidates >> (i as u64)) & 1 == 1 {
            let from = Square::new(i).unwrap();
            let fb = from.bit();
            let after = (occupied & !fb & !cb) | tb;
            proof {
                assert forall|j: int| #[trigger] occ(after)(j) == occupied_after_en_passant(v.board, i as int, cap, t)(j) by {
                    lemma_bit_or(occupied & !fb & !cb, tb, j);
                    lemma_bit_and(occupied & !fb, !cb, j);
                    lemma_bit_and(occupied, !fb, j);
                    lemma_bit_not(fb, j);
                    lemma_bit_not(cb, j);
                }
                assert(occ(after) =~= occupied_after_en_passant(v.board, i as int, cap, t));
                lemma_pawn_target_sym(us, t, i as int);
            }
            if !attacked_by_bits(p, king, them, enemy_pawns, after) {
                proof {
                    assert(bit(candidates, i as int));
                    assert(!attacked_with(v.board, k, them, pawns_without(v.board, them, cap), occupied_after_en_passant(v.board, i as int, cap, t)));
                    assert(en_passant_capture_is_safe(v, i as int, t, cap, k));
                }
                return Some(target);
            }
        } else {
            proof {
                lemma_pawn_target_sym(us, t, i as int);
                assert(!bit(candidates, i as int));
            }
        }
        i = i + 1;
    }
    proof {
        assert forall|j: int| !#[trigger] en_passant_capture_is_safe(v, j, t, cap, k) by {
            if 0 <= j < 64 {
            }
        }
    }
    None
}

impl Position {
    /// The transposition key (see `hash_position`).
    pub fn zobrist_hash(&self) -> (r: u64)
        requires
            self.wf(),
        ensures
            r == position_key(self@),
    {
        hash_position(self)
    }
}


/// The repetition key ignores the clocks: positions that differ only in their halfmove clock
/// and fullmove number have the same key.
pub proof fn lemma_repetition_key_ignores_clocks(v: PositionView, halfmove: u16, fullmove: u16)
    ensures
        board_key(PositionView { halfmove, fullmove, ..v }) == board_key(v),
{
    let w = PositionView { halfmove, fullmove, ..v };
    assert forall|from: int, target: int, captured: int, king: int|
        #[trigger] en_passant_capture_is_safe(w, from, target, captured, king)
            == en_passant_capture_is_safe(v, from, target, captured, king) by {}
    assert forall|target: int, captured: int, king: int|
        #[trigger] has_safe_en_passant_capture(w, target, captured, king)
            == has_safe_en_passant_capture(v, target, captured, king) by {
        if has_safe_en_passant_capture(v, target, captured, king) {
            let from = choose|from: int| #[trigger] en_passant_capture_is_safe(v, from, target, captured, king);
            assert(en_passant_capture_is_safe(w, from, target, captured, king));
        }
        if has_safe_en_passant_capture(w, target, captured, king) {
            let from = choose|from: int| #[trigger] en_passant_capture_is_safe(w, from, target, captured, king);
            assert(en_passant_capture_is_safe(v, from, target, captured, king));
        }
    }
    assert(legal_en_passant(w) == legal_en_passant(v));
}

/// An en-passant square that no legal capture can use does not change the repetition key.
pub proof fn lemma_repetition_key_ignores_unusable_en_passant(v: PositionView)
    requires
        legal_en_passant(v) is None,
    ensures
        board_key(PositionView { en_passant: None, ..v }) == board_key(v),
{
}

/// The transposition key tells apart positions that differ in their halfmove clock.
pub proof fn lemma_position_key_separates_halfmove(v: PositionView, halfmove: u16)
    requires
        halfmove != v.halfmove,
    ensures
        position_key(PositionView { halfmove, ..v }) != position_key(v),
{
    let w = PositionView { halfmove, ..v };
    lemma_repetition_key_ignores_clocks(v, halfmove, v.fullmove);
    assert(w == PositionView { halfmove, fullmove: v.fullmove, ..v });
    lemma_clock_factor_injective(halfmove, v.halfmove);
    let a = board_key(v);
    let x = wmul(halfmove as u64, CLOCK_MULTIPLIER);
    let y = wmul(v.halfmove as u64, CLOCK_MULTIPLIER);
    assert(x != y ==> a ^ x != a ^ y) by (bit_vector);
}

/// Distinct halfmove clocks give distinct clock factors: the multiplier is odd, so
/// multiplication by it is one-to-one below 2^16 even modulo 2^64.
proof fn lemma_clock_factor_injective(h1: u16, h2: u16)
    requires
        h1 != h2,
    ensures
        wmul(h1 as u64, CLOCK_MULTIPLIER) != wmul(h2 as u64, CLOCK_MULTIPLIER),
{
    let m: int = 65536;
    let big: int = 0x1_0000_0000_0000_0000;
    let c = CLOCK_MULTIPLIER as int;
    let x1 = (h1 as int) * c;
    let x2 = (h2 as int) * c;
    if wmul(h1 as u64, CLOCK_MULTIPLIER) == wmul(h2 as u64, CLOCK_MULTIPLIER) {
        assert(x1 % big == x2 % big);
        assert(big == m * 0x1_0000_0000_0000int);
        vstd::arithmetic::div_mod::lemma_mod_mod(x1, m, 0x1_0000_0000_0000int);
        vstd::arithmetic::div_mod::lemma_mod_mod(x2, m, 0x1_0000_0000_0000int);
        assert(x1 % m == x2 % m);
        vstd::arithmetic::div_mod::lemma_mul_mod_noop_left(c, h1 as int, m);
        vstd::arithmetic::div_mod::lemma_mul_mod_noop_left(c, h2 as int, m);
        vstd::arithmetic::mul::lemma_mul_is_commutative(h1 as int, c);
        vstd::arithmetic::mul::lemma_mul_is_commutative(h2 as int, c);
        assert(c % m == 2709);
        let a = h1 as u64;
        let b = h2 as u64;
        assert((2709 * a) % 65536 == (2709 * b) % 65536);
        assert((a < 65536 && b < 65536 && (2709 * a) % 65536 == (2709 * b) % 65536) ==> a == b)
            by (bit_vector);
    }
}

} // verus!
