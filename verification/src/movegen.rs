//! Attack detection, pseudo-legal and legal move generation, and perft.
use vstd::prelude::*;
use crate::bits::{bit, lemma_bit_and, lemma_bit_or, lemma_nonzero_has_bit};
use crate::bits::{lemma_bit_not, lemma_bit_zero};
use crate::bitboard::{Bitboard, Color, Piece, PieceKind, Square, rank_of, offset_index};
use crate::chess_move::{Move, Promotion};
use crate::attacks::{
    self, is_square, pawn_dir, lemma_square_coords, occ, pawn_target, knight_target, king_target, bishop_target, rook_target,
    queen_target, lemma_pawn_target_sym, lemma_bishop_target_sym, lemma_rook_target_sym,
};
use crate::position::{
    Position, PositionView, spec_make, lemma_make_unmake_restores, lemma_undo_castling, is_piece, is_color, is_kind, king_square_of, can_make, is_reversible,
    is_castling_move, capture_square, is_en_passant_capture,
};

verus! {

broadcast use {
    Square::lemma_view_bounds,
    Square::lemma_from_index,
    Square::lemma_from_index_view,
    Position::lemma_wf_view,
};

/// The squares a piece of kind other than pawn standing on `from` attacks.
pub open spec fn piece_attacks(pc: Piece, from: int, to: int, occupied: spec_fn(int) -> bool) -> bool {
    match pc.kind {
        PieceKind::Pawn => pawn_target(pc.color, from, to),
        PieceKind::Knight => knight_target(from, to),
        PieceKind::Bishop => bishop_target(from, to, occupied),
        PieceKind::Rook => rook_target(from, to, occupied),
        PieceKind::Queen => queen_target(from, to, occupied),
        PieceKind::King => king_target(from, to),
    }
}

/// The piece on `s` (or a pawn that `pawns` places there) of color `by` attacks `sq`.
pub open spec fn attacker_at(
    board: Seq<Option<Piece>>,
    sq: int,
    by: Color,
    pawns: spec_fn(int) -> bool,
    occupied: spec_fn(int) -> bool,
    s: int,
) -> bool {
    ||| pawns(s) && pawn_target(by, s, sq)
    ||| is_color(board[s], by) && board[s]->0.kind != PieceKind::Pawn && piece_attacks(
        board[s]->0,
        s,
        sq,
        occupied,
    )
}

/// Some piece of color `by` attacks `sq`; pawn attackers are those `pawns` names and
/// sliding attacks are blocked by the squares `occupied` names.
pub open spec fn attacked_with(
    board: Seq<Option<Piece>>,
    sq: int,
    by: Color,
    pawns: spec_fn(int) -> bool,
    occupied: spec_fn(int) -> bool,
) -> bool {
    exists|s: int| is_square(s) && #[trigger] attacker_at(board, sq, by, pawns, occupied, s)
}

pub open spec fn pawns_of(board: Seq<Option<Piece>>, c: Color) -> spec_fn(int) -> bool {
    |i: int| is_square(i) && is_piece(board[i], c, PieceKind::Pawn)
}

pub open spec fn occupied_of(board: Seq<Option<Piece>>) -> spec_fn(int) -> bool {
    |i: int| is_square(i) && board[i] is Some
}

/// Square `sq` is attacked by a piece of color `by` in `v`.
pub open spec fn is_attacked(v: PositionView, sq: int, by: Color) -> bool {
    attacked_with(v.board, sq, by, pawns_of(v.board, by), occupied_of(v.board))
}

/// The king of color `c` exists (exactly once) and is attacked.
pub open spec fn is_in_check(v: PositionView, c: Color) -> bool {
    match king_square_of(v.board, c) {
        Some(k) => is_attacked(v, k, c.spec_opposite()),
        None => false,
    }
}

/// Whether `a & b` is nonzero, and which square witnesses it.
proof fn lemma_and_nonzero(a: u64, b: u64)
    ensures
        (a & b != 0) == exists|i: int| 0 <= i < 64 && bit(a, i) && #[trigger] bit(b, i),
{
    lemma_nonzero_has_bit(a & b);
    if a & b != 0 {
        let i = choose|i: int| 0 <= i < 64 && #[trigger] bit(a & b, i);
        lemma_bit_and(a, b, i);
    }
    assert forall|i: int| 0 <= i < 64 && bit(a, i) && #[trigger] bit(b, i) implies a & b != 0 by {
        lemma_bit_and(a, b, i);
    }
}

/// Attack probe with explicit pawn attackers and blockers; the other attackers come from `p`.
pub(crate) fn attacked_by_bits(p: &Position, square: Square, by: Color, pawns: Bitboard, occupied: Bitboard) -> (r: bool)
    requires
        p.wf(),
    ensures
        r == attacked_with(p@.board, square@, by, occ(pawns), occ(occupied)),
{
    let ghost board = p@.board;
    let ghost sq = square@;
    let ghost po = occ(pawns);
    let ghost oc = occ(occupied);
    let _i = square.index();
    let pa = attacks::pawn(square, by.opposite());
    let c1 = pa & pawns != 0;
    let kn = p.pieces(by, PieceKind::Knight);
    let na = attacks::knight(square);
    let c2 = na & kn != 0;
    let kg = p.pieces(by, PieceKind::King);
    let ka = attacks::king(square);
    let c3 = ka & kg != 0;
    let bb = p.pieces(by, PieceKind::Bishop);
    let qb = p.pieces(by, PieceKind::Queen);
    let bq = bb | qb;
    let ba = attacks::bishop(square, occupied);
    let c4 = ba & bq != 0;
    let rb = p.pieces(by, PieceKind::Rook);
    let rq = rb | qb;
    let ra = attacks::rook(square, occupied);
    let c5 = ra & rq != 0;
    let r = c1 || c2 || c3 || c4 || c5;
    proof {
        lemma_and_nonzero(pa, pawns);
        lemma_and_nonzero(na, kn);
        lemma_and_nonzero(ka, kg);
        lemma_and_nonzero(ba, bq);
        lemma_and_nonzero(ra, rq);
        if r {
            if c1 {
                let s = choose|i: int| 0 <= i < 64 && bit(pa, i) && #[trigger] bit(pawns, i);
                lemma_pawn_target_sym(by, sq, s);
                assert(attacker_at(board, sq, by, po, oc, s));
            } else if c2 {
                let s = choose|i: int| 0 <= i < 64 && bit(na, i) && #[trigger] bit(kn, i);
                assert(attacker_at(board, sq, by, po, oc, s));
            } else if c3 {
                let s = choose|i: int| 0 <= i < 64 && bit(ka, i) && #[trigger] bit(kg, i);
                assert(attacker_at(board, sq, by, po, oc, s));
            } else if c4 {
                let s = choose|i: int| 0 <= i < 64 && bit(ba, i) && #[trigger] bit(bq, i);
                lemma_bit_or(bb, qb, s);
                lemma_bishop_target_sym(sq, s, oc);
                assert(attacker_at(board, sq, by, po, oc, s));
            } else {
                let s = choose|i: int| 0 <= i < 64 && bit(ra, i) && #[trigger] bit(rq, i);
                lemma_bit_or(rb, qb, s);
                lemma_rook_target_sym(sq, s, oc);
                assert(attacker_at(board, sq, by, po, oc, s));
            }
        } else {
            assert forall|s: int| is_square(s) implies !#[trigger] attacker_at(board, sq, by, po, oc, s) by {
                lemma_pawn_target_sym(by, sq, s);
                lemma_bishop_target_sym(sq, s, oc);
                lemma_rook_target_sym(sq, s, oc);
                lemma_bit_or(bb, qb, s);
                lemma_bit_or(rb, qb, s);
                assert(!(bit(pa, s) && bit(pawns, s)));
                assert(!(bit(na, s) && bit(kn, s)));
                assert(!(bit(ka, s) && bit(kg, s)));
                assert(!(bit(ba, s) && bit(bq, s)));
                assert(!(bit(ra, s) && bit(rq, s)));
            }
        }
    }
    r
}

/// Whether a piece of color `by` attacks `square`.
pub fn is_square_attacked(position: &Position, square: Square, by: Color) -> (r: bool)
    requires
        position.wf(),
    ensures
        r == is_attacked(position@, square@, by),
{
    let pawns = position.pieces(by, PieceKind::Pawn);
    let occupied = position.occupied();
    let r = attacked_by_bits(position, square, by, pawns, occupied);
    proof {
        let v = position@;
        assert forall|i: int| #[trigger] occ(pawns)(i) == pawns_of(v.board, by)(i) by {}
        assert forall|i: int| #[trigger] occ(occupied)(i) == occupied_of(v.board)(i) by {}
        assert(occ(pawns) =~= pawns_of(v.board, by));
        assert(occ(occupied) =~= occupied_of(v.board));
    }
    r
}

/// Whether `color`'s king is attacked (false when it has no king or more than one).
pub fn in_check(position: &Position, color: Color) -> (r: bool)
    requires
        position.wf(),
    ensures
        r == is_in_check(position@, color),
{
    match position.king_square(color) {
        Some(king) => is_square_attacked(position, king, color.opposite()),
        None => false,
    }
}


pub open spec fn pawn_start_rank(c: Color) -> int {
    if c == Color::White {
        1
    } else {
        6
    }
}

/// A pawn of `us` on `from` may push or capture onto `to` (own pieces and kings not yet excluded).
pub open spec fn pawn_reaches(v: PositionView, us: Color, from: int, to: int) -> bool {
    let d = pawn_dir(us);
    ||| offset_index(from, 0, d) == Some(to) && v.board[to] is None
    ||| rank_of(from) == pawn_start_rank(us) && offset_index(from, 0, d) is Some
        && v.board[offset_index(from, 0, d)->0] is None && offset_index(from, 0, 2 * d) == Some(to)
        && v.board[to] is None
    ||| pawn_target(us, from, to) && (is_color(v.board[to], us.spec_opposite()) || (
    v.en_passant is Some && v.en_passant->0@ == to))
}

/// A piece of kind `kind` and side `us` on `from` reaches `to`, before own pieces and kings are excluded.
pub open spec fn reaches(v: PositionView, us: Color, kind: PieceKind, from: int, to: int) -> bool {
    match kind {
        PieceKind::Pawn => pawn_reaches(v, us, from, to),
        PieceKind::Knight => knight_target(from, to),
        PieceKind::Bishop => bishop_target(from, to, occupied_of(v.board)),
        PieceKind::Rook => rook_target(from, to, occupied_of(v.board)),
        PieceKind::Queen => queen_target(from, to, occupied_of(v.board)),
        PieceKind::King => king_target(from, to),
    }
}

/// The piece on `from` has a (non-castling) pseudo-legal move to `to`.
pub open spec fn is_move_target(v: PositionView, from: int, to: int) -> bool {
    &&& is_square(to)
    &&& reaches(v, v.side, v.board[from]->0.kind, from, to)
    &&& !is_color(v.board[to], v.side)
    &&& !is_kind(v.board[to], PieceKind::King)
}

/// A move to `to` from `from` is a pawn reaching the last rank, so it promotes.
pub open spec fn promotes(v: PositionView, from: int, to: int) -> bool {
    v.board[from]->0.kind == PieceKind::Pawn && (rank_of(to) == 0 || rank_of(to) == 7)
}

/// The moves from `from` to `to`: the four promotions (queen, rook, bishop, knight) or the plain move.
pub open spec fn moves_between(v: PositionView, from: int, to: int) -> Seq<Move> {
    let f = Square::from_index(from);
    let t = Square::from_index(to);
    if promotes(v, from, to) {
        seq![
            Move { from: f, to: t, promotion: Some(Promotion::Queen) },
            Move { from: f, to: t, promotion: Some(Promotion::Rook) },
            Move { from: f, to: t, promotion: Some(Promotion::Bishop) },
            Move { from: f, to: t, promotion: Some(Promotion::Knight) },
        ]
    } else {
        seq![Move { from: f, to: t, promotion: None }]
    }
}

/// The moves of the piece on `from` to the targets below `t`, in ascending target order.
pub open spec fn target_moves(v: PositionView, from: int, t: int) -> Seq<Move>
    decreases t,
{
    if t <= 0 {
        seq![]
    } else {
        target_moves(v, from, t - 1) + if is_move_target(v, from, t - 1) {
            moves_between(v, from, t - 1)
        } else {
            seq![]
        }
    }
}

/// The non-castling moves of the side to move from the squares below `f`, in ascending square order.
pub open spec fn square_moves(v: PositionView, f: int) -> Seq<Move>
    decreases f,
{
    if f <= 0 {
        seq![]
    } else {
        square_moves(v, f - 1) + if is_color(v.board[f - 1], v.side) {
            target_moves(v, f - 1, 64)
        } else {
            seq![]
        }
    }
}

/// The castling conditions that do not depend on the side: the king square holds a king that is
/// not attacked, the right is present, the rook is in its corner, the squares between are empty
/// and the squares the king crosses are not attacked.
pub open spec fn can_castle_kingside(v: PositionView) -> bool {
    let us = v.side;
    let them = us.spec_opposite();
    let rank = if us == Color::White { 0int } else { 7int };
    let right: u8 = if us == Color::White { 1u8 } else { 4u8 };
    let start = rank * 8 + 4;
    &&& is_kind(v.board[start], PieceKind::King)
    &&& !is_attacked(v, start, them)
    &&& v.castling & right != 0
    &&& is_piece(v.board[rank * 8 + 7], us, PieceKind::Rook)
    &&& v.board[rank * 8 + 5] is None
    &&& v.board[rank * 8 + 6] is None
    &&& !is_attacked(v, rank * 8 + 5, them)
    &&& !is_attacked(v, rank * 8 + 6, them)
}

pub open spec fn can_castle_queenside(v: PositionView) -> bool {
    let us = v.side;
    let them = us.spec_opposite();
    let rank = if us == Color::White { 0int } else { 7int };
    let right: u8 = if us == Color::White { 2u8 } else { 8u8 };
    let start = rank * 8 + 4;
    &&& is_kind(v.board[start], PieceKind::King)
    &&& !is_attacked(v, start, them)
    &&& v.castling & right != 0
    &&& is_piece(v.board[rank * 8], us, PieceKind::Rook)
    &&& v.board[rank * 8 + 1] is None
    &&& v.board[rank * 8 + 2] is None
    &&& v.board[rank * 8 + 3] is None
    &&& !is_attacked(v, rank * 8 + 3, them)
    &&& !is_attacked(v, rank * 8 + 2, them)
}

pub open spec fn castle_move(v: PositionView, to_file: int) -> Move {
    let rank = if v.side == Color::White { 0int } else { 7int };
    Move {
        from: Square::from_index(rank * 8 + 4),
        to: Square::from_index(rank * 8 + to_file),
        promotion: None,
    }
}

/// The castling moves: kingside first, then queenside.
pub open spec fn castle_moves(v: PositionView) -> Seq<Move> {
    (if can_castle_kingside(v) {
        seq![castle_move(v, 6)]
    } else {
        seq![]
    }) + (if can_castle_queenside(v) {
        seq![castle_move(v, 2)]
    } else {
        seq![]
    })
}

/// The pseudo-legal moves in generation order: by source square, then by target square
/// (promotions as queen, rook, bishop, knight), then the castling moves.
pub open spec fn pseudo_legal_seq(v: PositionView) -> Seq<Move> {
    square_moves(v, 64) + castle_moves(v)
}

/// `make_move` accepts the move and `unmake_move` takes it back exactly.
pub open spec fn move_ok(v: PositionView, m: Move) -> bool {
    can_make(v, m) && is_reversible(v, m)
}

proof fn lemma_occ_board(p: Position, occupied: u64)
    requires
        p.wf(),
        forall|i: int| 0 <= i < 64 ==> #[trigger] bit(occupied, i) == (p@.board[i] is Some),
    ensures
        occ(occupied) == occupied_of(p@.board),
{
    assert forall|i: int| #[trigger] occ(occupied)(i) == occupied_of(p@.board)(i) by {}
    assert(occ(occupied) =~= occupied_of(p@.board));
}

/// The squares a pawn on `from` may move to, own pieces not yet excluded.
fn pawn_targets(position: &Position, from: Square, us: Color, enemy: Bitboard, occupied: Bitboard) -> (t: Bitboard)
    requires
        position.wf(),
        forall|i: int| 0 <= i < 64 ==> #[trigger] bit(occupied, i) == (position@.board[i] is Some),
        forall|i: int| 0 <= i < 64 ==> #[trigger] bit(enemy, i) == is_color(position@.board[i], us.spec_opposite()),
    ensures
        forall|i: int| 0 <= i < 64 ==> #[trigger] bit(t, i) == pawn_reaches(position@, us, from@, i),
{
    let ghost v = position@;
    let ghost d = pawn_dir(us);
    let _fi = from.index();
    let white = us.is_white();
    let step: i8 = if white { 1 } else { -1 };
    let mut pushes: Bitboard = 0;
    let ghost mut one_ok = false;
    match from.offset(0, step) {
        Some(one) => {
            let ob = one.bit();
            if occupied & ob == 0 {
                proof {
                    lemma_bit_and(occupied, ob, one@);
                    lemma_bit_zero(one@);
                    one_ok = true;
                }
                pushes = ob;
                let start: u8 = if white { 1 } else { 6 };
                if from.rank() == start {
                    match from.offset(0, 2 * step) {
                        Some(two) => {
                            let tb = two.bit();
                            if occupied & tb == 0 {
                                proof {
                                    lemma_bit_and(occupied, tb, two@);
                                    lemma_bit_zero(two@);
                                }
                                pushes = ob | tb;
                                proof {
                                    assert forall|i: int| 0 <= i < 64 implies #[trigger] bit(pushes, i) == (i == one@ || i == two@) by {
                                        lemma_bit_or(ob, tb, i);
                                    }
                                }
                            } else {
                                proof {
                                    lemma_and_nonzero(occupied, tb);
                                }
                            }
                        },
                        None => {},
                    }
                }
            } else {
                proof {
                    lemma_and_nonzero(occupied, ob);
                }
            }
        },
        None => {},
    }
    let ep_bit: Bitboard = match position.en_passant_square() {
        Some(e) => e.bit(),
        None => 0,
    };
    let pa = attacks::pawn(from, us);
    let caps = pa & (enemy | ep_bit);
    let t = pushes | caps;
    proof {
        assert forall|i: int| 0 <= i < 64 implies #[trigger] bit(t, i) == pawn_reaches(v, us, from@, i) by {
            lemma_bit_or(pushes, caps, i);
            lemma_bit_and(pa, enemy | ep_bit, i);
            lemma_bit_or(enemy, ep_bit, i);
            lemma_bit_zero(i);
            lemma_square_coords(from@);
            if v.en_passant is None {
                lemma_bit_zero(i);
            }
            if bit(pushes, i) {
                lemma_bit_zero(i);
            }
        }
    }
    t
}


/// The target squares of `piece` on `from` for side `us`, own pieces excluded.
fn piece_targets(position: &Position, from: Square, piece: Piece, own: Bitboard, enemy: Bitboard, occupied: Bitboard) -> (t: Bitboard)
    requires
        position.wf(),
        piece.color == position@.side,
        forall|i: int| 0 <= i < 64 ==> #[trigger] bit(occupied, i) == (position@.board[i] is Some),
        forall|i: int| 0 <= i < 64 ==> #[trigger] bit(own, i) == is_color(position@.board[i], piece.color),
        forall|i: int| 0 <= i < 64 ==> #[trigger] bit(enemy, i) == is_color(position@.board[i], piece.color.spec_opposite()),
    ensures
        forall|i: int| 0 <= i < 64 ==> #[trigger] bit(t, i) == (reaches(position@, piece.color, piece.kind, from@, i) && !is_color(position@.board[i], piece.color)),
{
    let ghost v = position@;
    let us = piece.color;
    proof {
        lemma_occ_board(*position, occupied);
    }
    let raw = match piece.kind {
        PieceKind::Pawn => pawn_targets(position, from, us, enemy, occupied),
        PieceKind::Knight => attacks::knight(from),
        PieceKind::Bishop => attacks::bishop(from, occupied),
        PieceKind::Rook => attacks::rook(from, occupied),
        PieceKind::Queen => attacks::queen(from, occupied),
        PieceKind::King => attacks::king(from),
    };
    let t = raw & !own;
    proof {
        assert forall|i: int| 0 <= i < 64 implies #[trigger] bit(t, i) == (reaches(v, us, piece.kind, from@, i) && !is_color(v.board[i], us)) by {
            lemma_bit_and(raw, !own, i);
            lemma_bit_not(own, i);
        }
    }
    t
}

/// Appends the moves from `from` to the squares of `targets`, skipping kings, in ascending order.
fn push_target_moves(moves: &mut Vec<Move>, position: &Position, from: Square, is_pawn: bool, targets: Bitboard)
    requires
        position.wf(),
        is_color(position@.board[from@], position@.side),
        is_pawn == (position@.board[from@]->0.kind == PieceKind::Pawn),
        forall|i: int| 0 <= i < 64 ==> #[trigger] bit(targets, i) == (reaches(position@, position@.side, position@.board[from@]->0.kind, from@, i) && !is_color(position@.board[i], position@.side)),
        forall|k: int| 0 <= k < old(moves)@.len() ==> #[trigger] move_ok(position@, old(moves)@[k]),
    ensures
        final(moves)@ == old(moves)@ + target_moves(position@, from@, 64),
        forall|k: int| 0 <= k < final(moves)@.len() ==> #[trigger] move_ok(position@, final(moves)@[k]),
{
    let ghost v = position@;
    let ghost m0 = moves@;
    let _fi = from.index();
    let mut t: u8 = 0;
    while t < 64
        invariant
            0 <= t <= 64,
            position.wf(),
            v == position@,
            is_color(v.board[from@], v.side),
            is_pawn == (v.board[from@]->0.kind == PieceKind::Pawn),
            0 <= from@ < 64,
            forall|i: int| 0 <= i < 64 ==> #[trigger] bit(targets, i) == (reaches(v, v.side, v.board[from@]->0.kind, from@, i) && !is_color(v.board[i], v.side)),
            moves@ == m0 + target_moves(v, from@, t as int),
            forall|k: int| 0 <= k < moves@.len() ==> #[trigger] move_ok(v, moves@[k]),
        decreases 64 - t,
    {
        let ghost before = moves@;
        let to = Square::new(t).unwrap();
        let is_target = (targets >> (t as u64)) & 1 == 1;
        assert(is_target == bit(targets, t as int));
        if is_target {
            let is_king = match position.piece_at(to) {
                Some(p) => match p.kind {
                    PieceKind::King => true,
                    _ => false,
                },
                None => false,
            };
            if !is_king {
                let rank = to.rank();
                proof {
                    lemma_target_move_ok(v, from@, t as int);
                }
                if is_pawn && (rank == 0 || rank == 7) {
                    moves.push(Move::new(from, to, Some(Promotion::Queen)));
                    moves.push(Move::new(from, to, Some(Promotion::Rook)));
                    moves.push(Move::new(from, to, Some(Promotion::Bishop)));
                    moves.push(Move::new(from, to, Some(Promotion::Knight)));
                } else {
                    moves.push(Move::new(from, to, None));
                }
                proof {
                    assert(moves@ =~= before + moves_between(v, from@, t as int));
                }
            }
        }
        proof {
            assert(moves@ =~= m0 + target_moves(v, from@, t + 1));
        }
        t = t + 1;
    }
}

/// Every move to a target of an own piece can be made and taken back.
pub proof fn lemma_target_move_ok(v: PositionView, from: int, to: int)
    requires
        v.board.len() == 64,
        is_square(from),
        is_color(v.board[from], v.side),
        is_move_target(v, from, to),
    ensures
        forall|k: int| 0 <= k < moves_between(v, from, to).len() ==> #[trigger] move_ok(v, moves_between(v, from, to)[k]),
{
    lemma_square_coords(from);
    lemma_square_coords(to);
    let moved = v.board[from]->0;
    assert forall|k: int| 0 <= k < moves_between(v, from, to).len() implies #[trigger] move_ok(v, moves_between(v, from, to)[k]) by {
        let m = moves_between(v, from, to)[k];
        assert(m.from@ == from);
        assert(m.to@ == to);
        if is_en_passant_capture(v, moved, m) {
            assert(moved.kind == PieceKind::Pawn);
            assert(0 <= capture_square(v, moved, m) < 64);
        }
        if is_castling_move(moved, m) {
            assert(moved.kind == PieceKind::King);
            assert(false);
        }
    }
}

/// All moves of the side to move that obey piece movement, ignoring whether the own king is left
/// in check (castling does check the king's path).
pub fn pseudo_legal_moves(position: &Position) -> (moves: Vec<Move>)
    requires
        position.wf(),
    ensures
        moves@ == pseudo_legal_seq(position@),
        forall|k: int| 0 <= k < moves@.len() ==> #[trigger] move_ok(position@, moves@[k]),
{
    let ghost v = position@;
    let us = position.side_to_move();
    let them = us.opposite();
    let own = position.occupied_by(us);
    let enemy = position.occupied_by(them);
    let occupied = position.occupied();
    let mut moves: Vec<Move> = Vec::new();
    let mut from_idx: u8 = 0;
    while from_idx < 64
        invariant
            0 <= from_idx <= 64,
            position.wf(),
            v == position@,
            us == v.side,
            them == us.spec_opposite(),
            forall|i: int| 0 <= i < 64 ==> #[trigger] bit(occupied, i) == (v.board[i] is Some),
            forall|i: int| 0 <= i < 64 ==> #[trigger] bit(own, i) == is_color(v.board[i], us),
            forall|i: int| 0 <= i < 64 ==> #[trigger] bit(enemy, i) == is_color(v.board[i], them),
            moves@ == square_moves(v, from_idx as int),
            forall|k: int| 0 <= k < moves@.len() ==> #[trigger] move_ok(v, moves@[k]),
        decreases 64 - from_idx,
    {
        let from = Square::new(from_idx).unwrap();
        let ghost before = moves@;
        match position.piece_at(from) {
            Some(piece) => {
                if piece.color.index() == us.index() {
                    let targets = piece_targets(position, from, piece, own, enemy, occupied);
                    let is_pawn = match piece.kind {
                        PieceKind::Pawn => true,
                        _ => false,
                    };
                    push_target_moves(&mut moves, position, from, is_pawn, targets);
                }
            },
            None => {},
        }
        proof {
            assert(moves@ =~= square_moves(v, from_idx + 1));
        }
        from_idx = from_idx + 1;
    }
    let ghost before_castles = moves@;
    let white = us.is_white();
    let rank: u8 = if white { 0 } else { 7 };
    let ks_right: u8 = if white { 1 } else { 4 };
    let qs_right: u8 = if white { 2 } else { 8 };
    let start = Square::from_coords(4, rank).unwrap();
    let start_is_king = match position.piece_at(start) {
        Some(p) => match p.kind {
            PieceKind::King => true,
            _ => false,
        },
        None => false,
    };
    if start_is_king && !is_square_attacked(position, start, them) {
        if position.castling_rights() & ks_right != 0 {
            let f = Square::from_coords(5, rank).unwrap();
            let g = Square::from_coords(6, rank).unwrap();
            let rook = Square::from_coords(7, rank).unwrap();
            let rook_ok = match position.piece_at(rook) {
                Some(p) => p.color.index() == us.index() && p.kind.index() == 3,
                None => false,
            };
            if rook_ok && position.piece_at(f).is_none() && position.piece_at(g).is_none()
                && !is_square_attacked(position, f, them) && !is_square_attacked(position, g, them) {
                proof {
                    lemma_castle_move_ok(v, 6);
                }
                moves.push(Move::new(start, g, None));
            }
        }
        let ghost after_ks = moves@;
        if position.castling_rights() & qs_right != 0 {
            let b = Square::from_coords(1, rank).unwrap();
            let c = Square::from_coords(2, rank).unwrap();
            let d = Square::from_coords(3, rank).unwrap();
            let rook = Square::from_coords(0, rank).unwrap();
            let rook_ok = match position.piece_at(rook) {
                Some(p) => p.color.index() == us.index() && p.kind.index() == 3,
                None => false,
            };
            if rook_ok && position.piece_at(b).is_none() && position.piece_at(c).is_none()
                && position.piece_at(d).is_none() && !is_square_attacked(position, d, them)
                && !is_square_attacked(position, c, them) {
                proof {
                    lemma_castle_move_ok(v, 2);
                }
                moves.push(Move::new(start, c, None));
            }
        }
    }
    proof {
        assert(moves@ =~= pseudo_legal_seq(v));
    }
    moves
}

pub proof fn lemma_castle_move_ok(v: PositionView, to_file: int)
    requires
        v.board.len() == 64,
        to_file == 6 || to_file == 2,
        is_kind(v.board[castle_move(v, to_file).from@], PieceKind::King),
        to_file == 6 ==> v.board[castle_move(v, to_file).from@ + 1] is None,
        to_file == 2 ==> v.board[castle_move(v, to_file).from@ - 1] is None,
    ensures
        move_ok(v, castle_move(v, to_file)),
{
    let m = castle_move(v, to_file);
    lemma_square_coords(m.from@);
    lemma_square_coords(m.to@);
}

/// Making `m` does not leave the mover's king attacked.
pub open spec fn keeps_king_safe(v: PositionView, m: Move) -> bool {
    !is_in_check(spec_make(v, m), v.side)
}

/// The moves of `s` that keep the mover's king safe, in order.
pub open spec fn safe_moves(v: PositionView, s: Seq<Move>) -> Seq<Move>
    decreases s.len(),
{
    if s.len() == 0 {
        seq![]
    } else {
        safe_moves(v, s.drop_last()) + if keeps_king_safe(v, s.last()) {
            seq![s.last()]
        } else {
            seq![]
        }
    }
}

/// The legal moves in generation order.
pub open spec fn legal_seq(v: PositionView) -> Seq<Move> {
    safe_moves(v, pseudo_legal_seq(v))
}

proof fn lemma_safe_moves_take(v: PositionView, s: Seq<Move>, i: int)
    requires
        0 <= i < s.len(),
    ensures
        safe_moves(v, s.take(i + 1)) == safe_moves(v, s.take(i)) + if keeps_king_safe(v, s[i]) {
            seq![s[i]]
        } else {
            seq![]
        },
{
    assert(s.take(i + 1).drop_last() =~= s.take(i));
}

proof fn lemma_safe_moves_mono(v: PositionView, s: Seq<Move>, i: int)
    requires
        0 <= i <= s.len(),
    ensures
        safe_moves(v, s.take(i)).len() <= safe_moves(v, s).len(),
    decreases s.len(),
{
    if i < s.len() {
        assert(s.drop_last().take(i) =~= s.take(i));
        lemma_safe_moves_mono(v, s.drop_last(), i);
    } else {
        assert(s.take(i) =~= s);
    }
}

proof fn lemma_safe_moves_ok(v: PositionView, s: Seq<Move>)
    requires
        forall|k: int| 0 <= k < s.len() ==> #[trigger] move_ok(v, s[k]),
    ensures
        forall|k: int| 0 <= k < safe_moves(v, s).len() ==> #[trigger] move_ok(v, safe_moves(v, s)[k]),
    decreases s.len(),
{
    if s.len() > 0 {
        assert forall|k: int| 0 <= k < s.drop_last().len() implies #[trigger] move_ok(v, s.drop_last()[k]) by {
            assert(s.drop_last()[k] == s[k]);
        }
        lemma_safe_moves_ok(v, s.drop_last());
        assert(move_ok(v, s[s.len() - 1]));
        let pre = safe_moves(v, s.drop_last());
        assert forall|k: int| 0 <= k < safe_moves(v, s).len() implies #[trigger] move_ok(v, safe_moves(v, s)[k]) by {
            if k < pre.len() {
                assert(safe_moves(v, s)[k] == pre[k]);
            } else {
                assert(safe_moves(v, s)[k] == s.last());
            }
        }
    }
}

/// Whether the side to move has any legal move, stopping at the first one.
pub fn has_legal_move(position: &mut Position) -> (r: bool)
    requires
        old(position).wf(),
    ensures
        *final(position) == *old(position),
        r == (legal_seq(old(position)@).len() > 0),
{
    let ghost orig = *position;
    let ghost v = position@;
    let us = position.side_to_move();
    let pseudo = pseudo_legal_moves(position);
    let mut i: usize = 0;
    while i < pseudo.len()
        invariant
            0 <= i <= pseudo@.len(),
            *position == orig,
            orig.wf(),
            v == orig@,
            us == v.side,
            pseudo@ == pseudo_legal_seq(v),
            forall|k: int| 0 <= k < pseudo@.len() ==> #[trigger] move_ok(v, pseudo@[k]),
            safe_moves(v, pseudo@.take(i as int)).len() == 0,
            orig == *old(position),
        decreases pseudo@.len() - i,
    {
        let mv = pseudo[i];
        assert(move_ok(v, pseudo@[i as int]));
        let undo = position.make_move(mv);
        let ghost after = *position;
        let valid = !in_check(position, us);
        proof {
            lemma_undo_castling(v, mv);
        }
        position.unmake_move(mv, undo);
        proof {
            lemma_make_unmake_restores(orig, after, *position, mv, undo);
            lemma_safe_moves_take(v, pseudo@, i as int);
        }
        if valid {
            proof {
                assert(*position == orig);
                assert(keeps_king_safe(v, mv));
                assert(safe_moves(v, pseudo@.take(i + 1)).len() > 0);
                lemma_safe_moves_mono(v, pseudo@, i + 1);
            }
            return true;
        }
        i = i + 1;
    }
    proof {
        assert(pseudo@.take(i as int) =~= pseudo@);
    }
    false
}

/// The legal moves of the side to move, in generation order; the position is left unchanged.
pub fn legal_moves(position: &mut Position) -> (r: Vec<Move>)
    requires
        old(position).wf(),
    ensures
        *final(position) == *old(position),
        r@ == legal_seq(old(position)@),
        forall|k: int| 0 <= k < r@.len() ==> #[trigger] move_ok(old(position)@, r@[k]),
{
    let ghost orig = *position;
    let ghost v = position@;
    let us = position.side_to_move();
    let pseudo = pseudo_legal_moves(position);
    let mut legal: Vec<Move> = Vec::new();
    let mut i: usize = 0;
    while i < pseudo.len()
        invariant
            0 <= i <= pseudo@.len(),
            *position == orig,
            orig.wf(),
            v == orig@,
            us == v.side,
            pseudo@ == pseudo_legal_seq(v),
            forall|k: int| 0 <= k < pseudo@.len() ==> #[trigger] move_ok(v, pseudo@[k]),
            legal@ == safe_moves(v, pseudo@.take(i as int)),
        decreases pseudo@.len() - i,
    {
        let mv = pseudo[i];
        assert(move_ok(v, pseudo@[i as int]));
        let undo = position.make_move(mv);
        let ghost after = *position;
        let valid = !in_check(position, us);
        proof {
            lemma_undo_castling(v, mv);
        }
        position.unmake_move(mv, undo);
        proof {
            lemma_make_unmake_restores(orig, after, *position, mv, undo);
            lemma_safe_moves_take(v, pseudo@, i as int);
        }
        if valid {
            legal.push(mv);
        }
        proof {
            assert(legal@ =~= safe_moves(v, pseudo@.take(i + 1)));
        }
        i = i + 1;
    }
    proof {
        assert(pseudo@.take(i as int) =~= pseudo@);
        lemma_safe_moves_ok(v, pseudo@);
    }
    legal
}

/// The number of leaves of the legal move tree of depth `d` below `v`.
pub open spec fn spec_perft(v: PositionView, d: nat) -> nat
    decreases d, 0nat,
{
    if d == 0 {
        1
    } else {
        perft_sum(v, legal_seq(v), (d - 1) as nat)
    }
}

/// The sum of `spec_perft(child, d)` over the positions after each move of `ms`.
pub open spec fn perft_sum(v: PositionView, ms: Seq<Move>, d: nat) -> nat
    decreases d, ms.len(),
{
    if ms.len() == 0 {
        0
    } else {
        perft_sum(v, ms.drop_last(), d) + spec_perft(spec_make(v, ms.last()), d)
    }
}

proof fn lemma_perft_sum_depth0(v: PositionView, ms: Seq<Move>)
    ensures
        perft_sum(v, ms, 0) == ms.len(),
    decreases ms.len(),
{
    if ms.len() > 0 {
        lemma_perft_sum_depth0(v, ms.drop_last());
        assert(spec_perft(spec_make(v, ms.last()), 0) == 1);
    }
}

/// Perft counts one leaf at depth 0 and one per legal move at depth 1; at depth `d + 1` it
/// is the sum, over the legal moves, of the count to depth `d` from the position after the
/// move.
pub proof fn lemma_perft_counts(v: PositionView, d: nat)
    ensures
        spec_perft(v, 0) == 1,
        spec_perft(v, 1) == legal_seq(v).len(),
        spec_perft(v, d + 1) == perft_sum(v, legal_seq(v), d),
{
    lemma_perft_sum_depth0(v, legal_seq(v));
}

proof fn lemma_perft_sum_take(v: PositionView, ms: Seq<Move>, i: int, d: nat)
    requires
        0 <= i < ms.len(),
    ensures
        perft_sum(v, ms.take(i + 1), d) == perft_sum(v, ms.take(i), d) + spec_perft(spec_make(v, ms[i]), d),
{
    assert(ms.take(i + 1).drop_last() =~= ms.take(i));
}

proof fn lemma_perft_sum_mono(v: PositionView, ms: Seq<Move>, i: int, d: nat)
    requires
        0 <= i <= ms.len(),
    ensures
        perft_sum(v, ms.take(i), d) <= perft_sum(v, ms, d),
    decreases ms.len(),
{
    if i < ms.len() {
        assert(ms.drop_last().take(i) =~= ms.take(i));
        lemma_perft_sum_mono(v, ms.drop_last(), i, d);
    } else {
        assert(ms.take(i) =~= ms);
    }
}

/// Counts the leaves of the legal move tree to `depth`; the position is left unchanged.
pub fn perft(position: &mut Position, depth: u8) -> (r: u64)
    requires
        old(position).wf(),
        spec_perft(old(position)@, depth as nat) <= u64::MAX,
    ensures
        *final(position) == *old(position),
        r == spec_perft(old(position)@, depth as nat),
    decreases depth,
{
    if depth == 0 {
        return 1;
    }
    let ghost orig = *position;
    let ghost v = position@;
    let ghost d = (depth - 1) as nat;
    let moves = legal_moves(position);
    if depth == 1 {
        proof {
            lemma_perft_sum_depth0(v, moves@);
        }
        return moves.len() as u64;
    }
    let mut nodes: u64 = 0;
    let mut i: usize = 0;
    while i < moves.len()
        invariant
            0 <= i <= moves@.len(),
            *position == orig,
            orig.wf(),
            v == orig@,
            d == depth - 1,
            depth >= 2,
            moves@ == legal_seq(v),
            forall|k: int| 0 <= k < moves@.len() ==> #[trigger] move_ok(v, moves@[k]),
            spec_perft(v, depth as nat) <= u64::MAX,
            spec_perft(v, depth as nat) == perft_sum(v, moves@, d),
            nodes == perft_sum(v, moves@.take(i as int), d),
        decreases moves@.len() - i,
    {
        let mv = moves[i];
        assert(move_ok(v, moves@[i as int]));
        proof {
            lemma_perft_sum_take(v, moves@, i as int, d);
            lemma_perft_sum_mono(v, moves@, i + 1, d);
        }
        let undo = position.make_move(mv);
        let ghost after = *position;
        let n = perft(position, depth - 1);
        proof {
            lemma_undo_castling(v, mv);
        }
        position.unmake_move(mv, undo);
        proof {
            lemma_make_unmake_restores(orig, after, *position, mv, undo);
        }
        nodes = nodes + n;
        i = i + 1;
    }
    proof {
        assert(moves@.take(i as int) =~= moves@);
    }
    nodes
}

/// For each legal move in order, the move and the perft count below it.
pub fn perft_divide(position: &mut Position, depth: u8) -> (r: Vec<(Move, u64)>)
    requires
        old(position).wf(),
        spec_perft(old(position)@, depth as nat) <= u64::MAX,
    ensures
        *final(position) == *old(position),
        depth == 0 ==> r@.len() == 0,
        depth > 0 ==> r@.len() == legal_seq(old(position)@).len(),
        depth > 0 ==> forall|k: int| 0 <= k < r@.len() ==> (#[trigger] r@[k]).0 == legal_seq(old(position)@)[k]
            && r@[k].1 == spec_perft(spec_make(old(position)@, legal_seq(old(position)@)[k]), (depth - 1) as nat),
{
    let mut out: Vec<(Move, u64)> = Vec::new();
    if depth == 0 {
        return out;
    }
    let ghost orig = *position;
    let ghost v = position@;
    let ghost d = (depth - 1) as nat;
    let moves = legal_moves(position);
    let mut i: usize = 0;
    while i < moves.len()
        invariant
            0 <= i <= moves@.len(),
            *position == orig,
            orig.wf(),
            v == orig@,
            orig == *old(position),
            d == depth - 1,
            depth >= 1,
            moves@ == legal_seq(v),
            forall|k: int| 0 <= k < moves@.len() ==> #[trigger] move_ok(v, moves@[k]),
            spec_perft(v, depth as nat) <= u64::MAX,
            spec_perft(v, depth as nat) == perft_sum(v, moves@, d),
            out@.len() == i,
            forall|k: int| 0 <= k < i ==> (#[trigger] out@[k]).0 == moves@[k] && out@[k].1 == spec_perft(spec_make(v, moves@[k]), d),
        decreases moves@.len() - i,
    {
        let mv = moves[i];
        assert(move_ok(v, moves@[i as int]));
        proof {
            lemma_perft_sum_take(v, moves@, i as int, d);
            lemma_perft_sum_mono(v, moves@, i + 1, d);
        }
        let undo = position.make_move(mv);
        let ghost after = *position;
        let n = perft(position, depth - 1);
        proof {
            lemma_undo_castling(v, mv);
        }
        position.unmake_move(mv, undo);
        proof {
            lemma_make_unmake_restores(orig, after, *position, mv, undo);
        }
        out.push((mv, n));
        i = i + 1;
    }
    out
}

/// `perft`, or `None` when the count does not fit in `u64`.
pub fn perft_checked(position: &mut Position, depth: u8) -> (r: Option<u64>)
    requires
        old(position).wf(),
    ensures
        *final(position) == *old(position),
        match r {
            Some(n) => n == spec_perft(old(position)@, depth as nat),
            None => spec_perft(old(position)@, depth as nat) > u64::MAX,
        },
    decreases depth,
{
    if depth == 0 {
        return Some(1);
    }
    let ghost orig = *position;
    let ghost v = position@;
    let ghost d = (depth - 1) as nat;
    let moves = legal_moves(position);
    if depth == 1 {
        proof {
            lemma_perft_sum_depth0(v, moves@);
        }
        return Some(moves.len() as u64);
    }
    let mut nodes: u64 = 0;
    let mut i: usize = 0;
    while i < moves.len()
        invariant
            0 <= i <= moves@.len(),
            *position == orig,
            orig.wf(),
            orig == *old(position),
            v == orig@,
            d == depth - 1,
            depth >= 2,
            moves@ == legal_seq(v),
            forall|k: int| 0 <= k < moves@.len() ==> #[trigger] move_ok(v, moves@[k]),
            spec_perft(v, depth as nat) == perft_sum(v, moves@, d),
            nodes == perft_sum(v, moves@.take(i as int), d),
        decreases moves@.len() - i,
    {
        let mv = moves[i];
        assert(move_ok(v, moves@[i as int]));
        proof {
            lemma_perft_sum_take(v, moves@, i as int, d);
            lemma_perft_sum_mono(v, moves@, i + 1, d);
        }
        let undo = position.make_move(mv);
        let ghost after = *position;
        let n = perft_checked(position, depth - 1);
        proof {
            lemma_undo_castling(v, mv);
        }
        position.unmake_move(mv, undo);
        proof {
            lemma_make_unmake_restores(orig, after, *position, mv, undo);
        }
        match n {
            None => {
                return None;
            },
            Some(c) => match nodes.checked_add(c) {
                None => {
                    return None;
                },
                Some(t) => {
                    nodes = t;
                },
            },
        }
        i = i + 1;
    }
    proof {
        assert(moves@.take(i as int) =~= moves@);
    }
    Some(nodes)
}

/// `perft_divide`, or `None` when the count to `depth` does not fit in `u64`.
pub fn perft_divide_checked(position: &mut Position, depth: u8) -> (r: Option<Vec<(Move, u64)>>)
    requires
        old(position).wf(),
    ensures
        *final(position) == *old(position),
        r is None <==> spec_perft(old(position)@, depth as nat) > u64::MAX,
        r matches Some(out) ==> {
            &&& depth == 0 ==> out@.len() == 0
            &&& depth > 0 ==> out@.len() == legal_seq(old(position)@).len()
            &&& depth > 0 ==> forall|k: int|
                0 <= k < out@.len() ==> (#[trigger] out@[k]).0 == legal_seq(old(position)@)[k]
                    && out@[k].1 == spec_perft(
                    spec_make(old(position)@, legal_seq(old(position)@)[k]),
                    (depth - 1) as nat,
                )
        },
{
    let mut out: Vec<(Move, u64)> = Vec::new();
    if depth == 0 {
        return Some(out);
    }
    let ghost orig = *position;
    let ghost v = position@;
    let ghost d = (depth - 1) as nat;
    let moves = legal_moves(position);
    let mut total: u64 = 0;
    let mut i: usize = 0;
    while i < moves.len()
        invariant
            0 <= i <= moves@.len(),
            *position == orig,
            orig.wf(),
            v == orig@,
            orig == *old(position),
            d == depth - 1,
            depth >= 1,
            moves@ == legal_seq(v),
            forall|k: int| 0 <= k < moves@.len() ==> #[trigger] move_ok(v, moves@[k]),
            spec_perft(v, depth as nat) == perft_sum(v, moves@, d),
            total == perft_sum(v, moves@.take(i as int), d),
            out@.len() == i,
            forall|k: int| 0 <= k < i ==> (#[trigger] out@[k]).0 == moves@[k] && out@[k].1 == spec_perft(spec_make(v, moves@[k]), d),
        decreases moves@.len() - i,
    {
        let mv = moves[i];
        assert(move_ok(v, moves@[i as int]));
        proof {
            lemma_perft_sum_take(v, moves@, i as int, d);
            lemma_perft_sum_mono(v, moves@, i + 1, d);
        }
        let undo = position.make_move(mv);
        let ghost after = *position;
        let n = perft_checked(position, depth - 1);
        proof {
            lemma_undo_castling(v, mv);
        }
        position.unmake_move(mv, undo);
        proof {
            lemma_make_unmake_restores(orig, after, *position, mv, undo);
        }
        let c = match n {
            None => {
                return None;
            },
            Some(c) => c,
        };
        match total.checked_add(c) {
            None => {
                return None;
            },
            Some(t) => {
                total = t;
            },
        }
        out.push((mv, c));
        i = i + 1;
    }
    proof {
        assert(moves@.take(i as int) =~= moves@);
    }
    Some(out)
}
} // verus!
