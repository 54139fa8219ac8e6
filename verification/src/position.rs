//! The board state and reversible make/unmake.
use vstd::prelude::*;
use crate::bits::{bit, lemma_bit_or, lemma_bit_and, lemma_bit_not, lemma_bit_zero, lemma_bits_ext};
use crate::bitboard::{Bitboard, Color, Piece, PieceKind, Square, file_of, rank_of, square_at};
use crate::attacks::{abs, pawn_dir};
use crate::chess_move::{Move, Promotion};

verus! {

broadcast use {Square::lemma_view_bounds, Square::lemma_from_index, Square::lemma_from_index_view};

pub const WHITE_KINGSIDE: u8 = 1;

pub const WHITE_QUEENSIDE: u8 = 2;

pub const BLACK_KINGSIDE: u8 = 4;

pub const BLACK_QUEENSIDE: u8 = 8;

#[derive(Clone, Debug, PartialEq, Eq)]
pub struct Position {
    squares: [Option<Piece>; 64],
    pieces: [Bitboard; 12],
    occupied: [Bitboard; 2],
    side_to_move: Color,
    castling: u8,
    en_passant: Option<Square>,
    halfmove_clock: u16,
    fullmove_number: u16,
}

/// What `unmake_move` needs to restore the position before a move.
#[derive(Clone, Debug)]
pub struct Undo {
    captured: Option<(Square, Piece)>,
    moved: Piece,
    castling: u8,
    en_passant: Option<Square>,
    halfmove_clock: u16,
    fullmove_number: u16,
}

/// The abstract state of a position: what is on each square and the game-state fields.
pub struct PositionView {
    pub board: Seq<Option<Piece>>,
    pub side: Color,
    pub castling: u8,
    pub en_passant: Option<Square>,
    pub halfmove: u16,
    pub fullmove: u16,
}

impl View for Position {
    type V = PositionView;

    closed spec fn view(&self) -> PositionView {
        PositionView {
            board: self.squares@,
            side: self.side_to_move,
            castling: self.castling,
            en_passant: self.en_passant,
            halfmove: self.halfmove_clock,
            fullmove: self.fullmove_number,
        }
    }
}

/// Index of a piece's bitboard: color * 6 + kind.
pub open spec fn piece_index(p: Piece) -> int {
    p.color.idx() * 6 + p.kind.idx()
}

pub open spec fn is_color(sq: Option<Piece>, c: Color) -> bool {
    sq is Some && sq->0.color == c
}

pub open spec fn is_piece(sq: Option<Piece>, c: Color, k: PieceKind) -> bool {
    sq == Some(Piece { color: c, kind: k })
}

pub open spec fn is_kind(sq: Option<Piece>, k: PieceKind) -> bool {
    sq is Some && sq->0.kind == k
}

fn piece_slot(p: Piece) -> (r: usize)
    ensures
        r == piece_index(p),
        r < 12,
{
    p.color.index() * 6 + p.kind.index()
}

proof fn lemma_piece_index_injective(p: Piece, q: Piece)
    ensures
        (piece_index(p) == piece_index(q)) == (p == q),
        0 <= piece_index(p) < 12,
{
}

impl Position {
    /// The bitboards agree with the squares, and the castling rights use only the four flags.
    pub closed spec fn wf(&self) -> bool {
        &&& forall|j: int, i: int|
            0 <= j < 12 && 0 <= i < 64 ==> #[trigger] bit(self.pieces[j], i) == (
            self.squares[i] is Some && piece_index(self.squares[i]->0) == j)
        &&& forall|c: int, i: int|
            0 <= c < 2 && 0 <= i < 64 ==> #[trigger] bit(self.occupied[c], i) == (
            self.squares[i] is Some && self.squares[i]->0.color.idx() == c)
        &&& self.castling < 16
    }

    pub broadcast proof fn lemma_wf_view(&self)
        requires
            self.wf(),
        ensures
            #[trigger] self@.board.len() == 64,
            self@.castling < 16,
    {
    }

    /// Well-formed positions with the same view are equal.
    pub proof fn lemma_view_injective(p: Position, q: Position)
        requires
            p.wf(),
            q.wf(),
            p@ == q@,
        ensures
            p == q,
    {
        assert(p.squares@ == q.squares@);
        assert(p.squares =~= q.squares);
        assert forall|j: int| 0 <= j < 12 implies p.pieces[j] == q.pieces[j] by {
            assert forall|i: int| 0 <= i < 64 implies bit(p.pieces[j], i) == bit(q.pieces[j], i) by {
                assert(bit(p.pieces[j], i) == (p.squares[i] is Some && piece_index(p.squares[i]->0)
                    == j));
                assert(bit(q.pieces[j], i) == (q.squares[i] is Some && piece_index(q.squares[i]->0)
                    == j));
            }
            lemma_bits_ext(p.pieces[j], q.pieces[j]);
        }
        assert(p.pieces =~= q.pieces);
        assert forall|c: int| 0 <= c < 2 implies p.occupied[c] == q.occupied[c] by {
            assert forall|i: int| 0 <= i < 64 implies bit(p.occupied[c], i) == bit(q.occupied[c], i) by {
                assert(bit(p.occupied[c], i) == (p.squares[i] is Some && p.squares[i]->0.color.idx()
                    == c));
                assert(bit(q.occupied[c], i) == (q.squares[i] is Some && q.squares[i]->0.color.idx()
                    == c));
            }
            lemma_bits_ext(p.occupied[c], q.occupied[c]);
        }
        assert(p.occupied =~= q.occupied);
    }

    /// The empty board, White to move, no castling rights, clocks 0 and 1.
    pub fn empty() -> (r: Position)
        ensures
            r.wf(),
            r@.board == Seq::new(64, |i: int| None::<Piece>),
            r@.side == Color::White,
            r@.castling == 0,
            r@.en_passant is None,
            r@.halfmove == 0,
            r@.fullmove == 1,
    {
        let r = Position {
            squares: [None; 64],
            pieces: [0; 12],
            occupied: [0; 2],
            side_to_move: Color::White,
            castling: 0,
            en_passant: None,
            halfmove_clock: 0,
            fullmove_number: 1,
        };
        proof {
            assert forall|j: int, i: int| 0 <= j < 12 && 0 <= i < 64 implies #[trigger] bit(
                r.pieces[j],
                i,
            ) == (r.squares[i] is Some && piece_index(r.squares[i]->0) == j) by {
                lemma_bit_zero(i);
            }
            assert forall|c: int, i: int| 0 <= c < 2 && 0 <= i < 64 implies #[trigger] bit(
                r.occupied[c],
                i,
            ) == (r.squares[i] is Some && r.squares[i]->0.color.idx() == c) by {
                lemma_bit_zero(i);
            }
            assert(r@.board =~= Seq::new(64, |i: int| None::<Piece>));
        }
        r
    }

    pub fn piece_at(&self, s: Square) -> (r: Option<Piece>)
        requires
            self.wf(),
        ensures
            r == self@.board[s@],
    {
        self.squares[s.index() as usize]
    }

    /// Bitboard of the pieces of color `c` and kind `k`.
    pub fn pieces(&self, c: Color, k: PieceKind) -> (r: Bitboard)
        requires
            self.wf(),
        ensures
            forall|i: int| 0 <= i < 64 ==> #[trigger] bit(r, i) == is_piece(self@.board[i], c, k),
    {
        let j = piece_slot(Piece { color: c, kind: k });
        let r = self.pieces[j];
        proof {
            assert forall|i: int| 0 <= i < 64 implies #[trigger] bit(r, i) == is_piece(
                self@.board[i],
                c,
                k,
            ) by {
                assert(bit(self.pieces[j as int], i) == (self.squares[i] is Some && piece_index(
                    self.squares[i]->0,
                ) == j));
                if self.squares[i] is Some {
                    lemma_piece_index_injective(self.squares[i]->0, Piece { color: c, kind: k });
                }
            }
        }
        r
    }

    /// Bitboard of the pieces of color `c`.
    pub fn occupied_by(&self, c: Color) -> (r: Bitboard)
        requires
            self.wf(),
        ensures
            forall|i: int| 0 <= i < 64 ==> #[trigger] bit(r, i) == is_color(self@.board[i], c),
    {
        let r = self.occupied[c.index()];
        proof {
            assert forall|i: int| 0 <= i < 64 implies #[trigger] bit(r, i) == is_color(
                self@.board[i],
                c,
            ) by {
                assert(bit(self.occupied[c.idx()], i) == (self.squares[i] is Some
                    && self.squares[i]->0.color.idx() == c.idx()));
            }
        }
        r
    }

    /// Bitboard of all occupied squares.
    pub fn occupied(&self) -> (r: Bitboard)
        requires
            self.wf(),
        ensures
            forall|i: int| 0 <= i < 64 ==> #[trigger] bit(r, i) == (self@.board[i] is Some),
    {
        let r = self.occupied[0] | self.occupied[1];
        proof {
            assert forall|i: int| 0 <= i < 64 implies #[trigger] bit(r, i) == (
            self@.board[i] is Some) by {
                lemma_bit_or(self.occupied[0], self.occupied[1], i);
                assert(bit(self.occupied[0], i) == (self.squares[i] is Some
                    && self.squares[i]->0.color.idx() == 0));
                assert(bit(self.occupied[1], i) == (self.squares[i] is Some
                    && self.squares[i]->0.color.idx() == 1));
            }
        }
        r
    }

    pub fn side_to_move(&self) -> (r: Color)
        ensures
            r == self@.side,
    {
        self.side_to_move
    }

    pub fn castling_rights(&self) -> (r: u8)
        ensures
            r == self@.castling,
    {
        self.castling
    }

    pub fn en_passant_square(&self) -> (r: Option<Square>)
        ensures
            r == self@.en_passant,
    {
        self.en_passant
    }

    pub fn halfmove_clock(&self) -> (r: u16)
        ensures
            r == self@.halfmove,
    {
        self.halfmove_clock
    }

    pub fn fullmove_number(&self) -> (r: u16)
        ensures
            r == self@.fullmove,
    {
        self.fullmove_number
    }

    pub(crate) fn set_side_to_move(&mut self, c: Color)
        requires
            old(self).wf(),
        ensures
            final(self).wf(),
            final(self)@ == (PositionView { side: c, ..old(self)@ }),
    {
        self.side_to_move = c;
    }

    pub(crate) fn set_castling(&mut self, c: u8)
        requires
            old(self).wf(),
            c < 16,
        ensures
            final(self).wf(),
            final(self)@ == (PositionView { castling: c, ..old(self)@ }),
    {
        self.castling = c;
    }

    pub(crate) fn set_en_passant(&mut self, e: Option<Square>)
        requires
            old(self).wf(),
        ensures
            final(self).wf(),
            final(self)@ == (PositionView { en_passant: e, ..old(self)@ }),
    {
        self.en_passant = e;
    }

    pub(crate) fn set_clocks(&mut self, halfmove: u16, fullmove: u16)
        requires
            old(self).wf(),
        ensures
            final(self).wf(),
            final(self)@ == (PositionView { halfmove, fullmove, ..old(self)@ }),
    {
        self.halfmove_clock = halfmove;
        self.fullmove_number = fullmove;
    }

    /// Puts `piece` (or nothing) on `square`, keeping the bitboards in step.
    pub(crate) fn set_piece(&mut self, square: Square, piece: Option<Piece>)
        requires
            old(self).wf(),
        ensures
            final(self).wf(),
            final(self)@ == (PositionView {
                board: old(self)@.board.update(square@, piece),
                ..old(self)@
            }),
    {
        let i = square.index() as usize;
        let b = square.bit();
        let ghost s0 = self.squares;
        let ghost p0 = self.pieces;
        let ghost o0 = self.occupied;
        match self.squares[i] {
            Some(old) => {
                let j = piece_slot(old);
                let c = old.color.index();
                self.pieces[j] = self.pieces[j] & !b;
                self.occupied[c] = self.occupied[c] & !b;
            },
            None => {},
        }
        let ghost p1 = self.pieces;
        let ghost o1 = self.occupied;
        self.squares[i] = piece;
        match piece {
            Some(new) => {
                let j = piece_slot(new);
                let c = new.color.index();
                self.pieces[j] = self.pieces[j] | b;
                self.occupied[c] = self.occupied[c] | b;
            },
            None => {},
        }
        proof {
            let ii = i as int;
            // bits of the intermediate bitboards: square i cleared, others unchanged
            assert forall|j: int, k: int| 0 <= j < 12 && 0 <= k < 64 implies #[trigger] bit(
                p1[j],
                k,
            ) == (k != ii && s0[k] is Some && piece_index(s0[k]->0) == j) by {
                assert(bit(p0[j], k) == (s0[k] is Some && piece_index(s0[k]->0) == j));
                if s0[ii] is Some && j == piece_index(s0[ii]->0) {
                    lemma_bit_and(p0[j], !b, k);
                    lemma_bit_not(b, k);
                } else {
                    if k == ii {
                        if s0[ii] is Some {
                            lemma_piece_index_injective(s0[ii]->0, s0[ii]->0);
                        }
                    }
                }
            }
            assert forall|c: int, k: int| 0 <= c < 2 && 0 <= k < 64 implies #[trigger] bit(
                o1[c],
                k,
            ) == (k != ii && s0[k] is Some && s0[k]->0.color.idx() == c) by {
                assert(bit(o0[c], k) == (s0[k] is Some && s0[k]->0.color.idx() == c));
                if s0[ii] is Some && c == s0[ii]->0.color.idx() {
                    lemma_bit_and(o0[c], !b, k);
                    lemma_bit_not(b, k);
                }
            }
            assert forall|j: int, k: int| 0 <= j < 12 && 0 <= k < 64 implies #[trigger] bit(
                self.pieces[j],
                k,
            ) == (self.squares[k] is Some && piece_index(self.squares[k]->0) == j) by {
                assert(bit(p1[j], k) == (k != ii && s0[k] is Some && piece_index(s0[k]->0) == j));
                if piece is Some && j == piece_index(piece->0) {
                    lemma_bit_or(p1[j], b, k);
                }
            }
            assert forall|c: int, k: int| 0 <= c < 2 && 0 <= k < 64 implies #[trigger] bit(
                self.occupied[c],
                k,
            ) == (self.squares[k] is Some && self.squares[k]->0.color.idx() == c) by {
                assert(bit(o1[c], k) == (k != ii && s0[k] is Some && s0[k]->0.color.idx() == c));
                if piece is Some && c == piece->0.color.idx() {
                    lemma_bit_or(o1[c], b, k);
                }
            }
            assert(self.squares@ =~= s0@.update(ii, piece));
        }
    }
}


/// The piece a promotion turns a pawn of `color` into.
pub open spec fn promoted_piece(color: Color, p: Promotion) -> Piece {
    Piece {
        color,
        kind: match p {
            Promotion::Queen => PieceKind::Queen,
            Promotion::Rook => PieceKind::Rook,
            Promotion::Bishop => PieceKind::Bishop,
            Promotion::Knight => PieceKind::Knight,
        },
    }
}

/// The piece that ends up on the destination square.
pub open spec fn placed_piece(moved: Piece, m: Move) -> Piece {
    match m.promotion {
        Some(p) => promoted_piece(moved.color, p),
        None => moved,
    }
}

/// A pawn moving onto the empty en-passant target captures the pawn beside it.
pub open spec fn is_en_passant_capture(v: PositionView, moved: Piece, m: Move) -> bool {
    moved.kind == PieceKind::Pawn && v.en_passant == Some(m.to) && v.board[m.to@] is None
}

/// The square whose piece a move removes.
pub open spec fn capture_square(v: PositionView, moved: Piece, m: Move) -> int {
    if is_en_passant_capture(v, moved, m) {
        m.to@ - 8 * pawn_dir(moved.color)
    } else {
        m.to@
    }
}

/// A king moving two files is treated as castling and moves the rook as well.
pub open spec fn is_castling_move(moved: Piece, m: Move) -> bool {
    moved.kind == PieceKind::King && abs(file_of(m.from@) - file_of(m.to@)) == 2
}

/// The square the castling rook comes from.
pub open spec fn rook_from(m: Move) -> int {
    square_at(if file_of(m.to@) == 6 { 7 } else { 0 }, rank_of(m.from@))
}

/// The square the castling rook goes to.
pub open spec fn rook_to(m: Move) -> int {
    square_at(if file_of(m.to@) == 6 { 5 } else { 3 }, rank_of(m.from@))
}

/// Castling rights after `moved` goes from `from` to `to`.
pub open spec fn castling_after(c: u8, moved: Piece, from: int, to: int) -> u8 {
    let c1 = if moved.kind == PieceKind::King {
        if moved.color == Color::White {
            c & !(WHITE_KINGSIDE | WHITE_QUEENSIDE)
        } else {
            c & !(BLACK_KINGSIDE | BLACK_QUEENSIDE)
        }
    } else {
        c
    };
    let c2 = if from == 0 || to == 0 { c1 & !WHITE_QUEENSIDE } else { c1 };
    let c3 = if from == 7 || to == 7 { c2 & !WHITE_KINGSIDE } else { c2 };
    let c4 = if from == 56 || to == 56 { c3 & !BLACK_QUEENSIDE } else { c3 };
    if from == 63 || to == 63 { c4 & !BLACK_KINGSIDE } else { c4 }
}

/// The inputs on which `make_move` is defined: a piece stands on the source square, and
/// an en-passant capture has a square behind its target.
pub open spec fn can_make(v: PositionView, m: Move) -> bool {
    &&& 0 <= m.from@ < 64
    &&& 0 <= m.to@ < 64
    &&& v.board.len() == 64
    &&& v.board[m.from@] is Some
    &&& is_en_passant_capture(v, v.board[m.from@]->0, m) ==> 0 <= capture_square(
        v,
        v.board[m.from@]->0,
        m,
    ) < 64
}

/// The board after the move.
pub open spec fn board_after(v: PositionView, m: Move) -> Seq<Option<Piece>> {
    let moved = v.board[m.from@]->0;
    let cap = capture_square(v, moved, m);
    let b1 = v.board.update(m.from@, None).update(cap, None).update(
        m.to@,
        Some(placed_piece(moved, m)),
    );
    if is_castling_move(moved, m) {
        b1.update(rook_from(m), None).update(rook_to(m), b1[rook_from(m)])
    } else {
        b1
    }
}

/// The position after making `m`.
pub open spec fn spec_make(v: PositionView, m: Move) -> PositionView {
    let moved = v.board[m.from@]->0;
    let cap = capture_square(v, moved, m);
    PositionView {
        board: board_after(v, m),
        side: v.side.spec_opposite(),
        castling: castling_after(v.castling, moved, m.from@, m.to@),
        en_passant: if moved.kind == PieceKind::Pawn && abs(rank_of(m.from@) - rank_of(m.to@)) == 2 {
            Square::spec_offset(m.from, 0, pawn_dir(moved.color))
        } else {
            None
        },
        halfmove: if moved.kind == PieceKind::Pawn || v.board[cap] is Some {
            0
        } else {
            v.halfmove.saturating_add(1)
        },
        fullmove: if moved.color == Color::Black {
            v.fullmove.saturating_add(1)
        } else {
            v.fullmove
        },
    }
}

/// The record `make_move` returns.
pub closed spec fn spec_undo(v: PositionView, m: Move) -> Undo {
    let moved = v.board[m.from@]->0;
    let cap = capture_square(v, moved, m);
    Undo {
        captured: match v.board[cap] {
            Some(p) => Some((Square::from_index(cap), p)),
            None => None,
        },
        moved,
        castling: v.castling,
        en_passant: v.en_passant,
        halfmove_clock: v.halfmove,
        fullmove_number: v.fullmove,
    }
}

/// The position after taking back `m` with the record `u`.
pub closed spec fn spec_unmake(v: PositionView, m: Move, u: Undo) -> PositionView {
    let b1 = v.board.update(m.to@, None).update(m.from@, Some(u.moved));
    let b2 = match u.captured {
        Some((sq, p)) => b1.update(sq@, Some(p)),
        None => b1,
    };
    let b3 = if is_castling_move(u.moved, m) {
        b2.update(rook_to(m), None).update(rook_from(m), b2[rook_to(m)])
    } else {
        b2
    };
    PositionView {
        board: b3,
        side: v.side.spec_opposite(),
        castling: u.castling,
        en_passant: u.en_passant,
        halfmove: u.halfmove_clock,
        fullmove: u.fullmove_number,
    }
}

/// The moves that `unmake_move` takes back exactly: anything but a two-file king move
/// whose rook lands on an occupied square or whose rook squares meet the king's squares.
pub open spec fn is_reversible(v: PositionView, m: Move) -> bool {
    is_castling_move(v.board[m.from@]->0, m) ==> {
        &&& v.board[rook_to(m)] is None
        &&& rook_from(m) != m.from@
        &&& rook_from(m) != m.to@
        &&& rook_to(m) != m.to@
    }
}

/// Taking back a move restores the position it was made from.
pub proof fn lemma_make_unmake(v: PositionView, m: Move)
    requires
        can_make(v, m),
        is_reversible(v, m),
    ensures
        spec_unmake(spec_make(v, m), m, spec_undo(v, m)) == v,
{
    let moved = v.board[m.from@]->0;
    let cap = capture_square(v, moved, m);
    let after = spec_make(v, m);
    let u = spec_undo(v, m);
    let back = spec_unmake(after, m, u);
    assert(0 <= cap < 64);
    assert(0 <= rook_from(m) < 64);
    assert(0 <= rook_to(m) < 64);
    assert(back.board =~= v.board);
    assert(v.side.spec_opposite().spec_opposite() == v.side);
}

/// A move that can be made and taken back leaves a board of 64 squares.
pub proof fn lemma_make_keeps_board_size(v: PositionView, m: Move)
    requires
        can_make(v, m),
        is_reversible(v, m),
    ensures
        spec_make(v, m).board.len() == 64,
{
    let moved = v.board[m.from@]->0;
    let cap = capture_square(v, moved, m);
    assert(0 <= cap < 64);
    assert(0 <= rook_from(m) < 64);
    assert(0 <= rook_to(m) < 64);
}

fn file_distance(a: u8, b: u8) -> (r: u8)
    ensures
        r == abs(a - b),
{
    if a >= b {
        a - b
    } else {
        b - a
    }
}

pub proof fn lemma_clear_flags_small(c: u8, m: u8)
    requires
        c < 16,
    ensures
        c & !m < 16,
{
    assert(c & !m < 16) by (bit_vector)
        requires
            c < 16,
    ;
}

impl Position {
    /// Plays `mv` (which need not be legal) and returns what `unmake_move` needs to take it back.
    #[verifier::rlimit(50)]
    pub fn make_move(&mut self, mv: Move) -> (undo: Undo)
        requires
            old(self).wf(),
            can_make(old(self)@, mv),
        ensures
            final(self).wf(),
            final(self)@ == spec_make(old(self)@, mv),
            undo == spec_undo(old(self)@, mv),
    {
        let ghost v = self@;
        let from = mv.from;
        let to = mv.to;
        let fi = from.index() as usize;
        let ti = to.index() as usize;
        let moved = self.squares[fi].unwrap();
        let white = moved.color.is_white();
        let is_ep = match moved.kind {
            PieceKind::Pawn => match self.en_passant {
                Some(e) => e.index() as usize == ti && self.squares[ti].is_none(),
                None => false,
            },
            _ => false,
        };
        let capture_sq = if is_ep {
            to.offset(0, if white { -1 } else { 1 }).unwrap()
        } else {
            to
        };
        assert(capture_sq@ == capture_square(v, moved, mv));
        let captured = match self.squares[capture_sq.index() as usize] {
            Some(piece) => Some((capture_sq, piece)),
            None => None,
        };
        let undo = Undo {
            captured,
            moved,
            castling: self.castling,
            en_passant: self.en_passant,
            halfmove_clock: self.halfmove_clock,
            fullmove_number: self.fullmove_number,
        };
        self.set_piece(from, None);
        self.set_piece(capture_sq, None);
        let placed = match mv.promotion {
            Some(promo) => Piece {
                color: moved.color,
                kind: match promo {
                    Promotion::Queen => PieceKind::Queen,
                    Promotion::Rook => PieceKind::Rook,
                    Promotion::Bishop => PieceKind::Bishop,
                    Promotion::Knight => PieceKind::Knight,
                },
            },
            None => moved,
        };
        self.set_piece(to, Some(placed));
        let castles = match moved.kind {
            PieceKind::King => file_distance(from.file(), to.file()) == 2,
            _ => false,
        };
        if castles {
            let (rf, rt): (u8, u8) = if to.file() == 6 {
                (7, 5)
            } else {
                (0, 3)
            };
            let a = Square::from_coords(rf, from.rank()).unwrap();
            let b = Square::from_coords(rt, from.rank()).unwrap();
            assert(a@ == rook_from(mv));
            assert(b@ == rook_to(mv));
            let rook = self.piece_at(a);
            self.set_piece(a, None);
            self.set_piece(b, rook);
        }
        let is_pawn = match moved.kind {
            PieceKind::Pawn => true,
            _ => false,
        };
        let new_ep = if is_pawn && file_distance(from.rank(), to.rank()) == 2 {
            from.offset(0, if white { 1 } else { -1 })
        } else {
            None
        };
        self.set_en_passant(new_ep);
        let mut c = self.castling;
        proof {
            assert(c < 16);
        }
        match moved.kind {
            PieceKind::King => {
                proof {
                    lemma_clear_flags_small(c, WHITE_KINGSIDE | WHITE_QUEENSIDE);
                    lemma_clear_flags_small(c, BLACK_KINGSIDE | BLACK_QUEENSIDE);
                }
                c = if white {
                    c & !(WHITE_KINGSIDE | WHITE_QUEENSIDE)
                } else {
                    c & !(BLACK_KINGSIDE | BLACK_QUEENSIDE)
                };
            },
            _ => {},
        }
        if fi == 0 || ti == 0 {
            proof {
                lemma_clear_flags_small(c, WHITE_QUEENSIDE);
            }
            c = c & !WHITE_QUEENSIDE;
        }
        if fi == 7 || ti == 7 {
            proof {
                lemma_clear_flags_small(c, WHITE_KINGSIDE);
            }
            c = c & !WHITE_KINGSIDE;
        }
        if fi == 56 || ti == 56 {
            proof {
                lemma_clear_flags_small(c, BLACK_QUEENSIDE);
            }
            c = c & !BLACK_QUEENSIDE;
        }
        if fi == 63 || ti == 63 {
            proof {
                lemma_clear_flags_small(c, BLACK_KINGSIDE);
            }
            c = c & !BLACK_KINGSIDE;
        }
        self.set_castling(c);
        let halfmove = if is_pawn || captured.is_some() {
            0
        } else {
            self.halfmove_clock.saturating_add(1)
        };
        let fullmove = if white {
            self.fullmove_number
        } else {
            self.fullmove_number.saturating_add(1)
        };
        self.set_clocks(halfmove, fullmove);
        let side = self.side_to_move.opposite();
        self.set_side_to_move(side);
        proof {
            assert(self@.board =~= spec_make(v, mv).board);
        }
        undo
    }

    /// Takes back `mv`, given the record its `make_move` returned.
    pub fn unmake_move(&mut self, mv: Move, undo: Undo)
        requires
            old(self).wf(),
            0 <= mv.from@ < 64,
            0 <= mv.to@ < 64,
            undo.castling_spec() < 16,
        ensures
            final(self).wf(),
            final(self)@ == spec_unmake(old(self)@, mv, undo),
    {
        let ghost v = self@;
        let side = self.side_to_move.opposite();
        self.set_side_to_move(side);
        self.set_piece(mv.to, None);
        self.set_piece(mv.from, Some(undo.moved));
        match undo.captured {
            Some((sq, piece)) => {
                self.set_piece(sq, Some(piece));
            },
            None => {},
        }
        let castles = match undo.moved.kind {
            PieceKind::King => file_distance(mv.from.file(), mv.to.file()) == 2,
            _ => false,
        };
        if castles {
            let (rf, rt): (u8, u8) = if mv.to.file() == 6 {
                (7, 5)
            } else {
                (0, 3)
            };
            let a = Square::from_coords(rf, mv.from.rank()).unwrap();
            let b = Square::from_coords(rt, mv.from.rank()).unwrap();
            let rook = self.piece_at(b);
            self.set_piece(b, None);
            self.set_piece(a, rook);
        }
        self.set_castling(undo.castling);
        self.set_en_passant(undo.en_passant);
        self.set_clocks(undo.halfmove_clock, undo.fullmove_number);
        proof {
            assert(self@.board =~= spec_unmake(v, mv, undo).board);
        }
    }
}

impl Undo {
    pub closed spec fn castling_spec(&self) -> u8 {
        self.castling
    }
}

/// The record of a move made from a well-formed position holds valid castling rights.
pub proof fn lemma_undo_castling(v: PositionView, m: Move)
    requires
        v.castling < 16,
    ensures
        spec_undo(v, m).castling_spec() < 16,
{
}

/// Making a move and taking it back gives back the same position, bitboards included.
pub proof fn lemma_make_unmake_restores(p: Position, after: Position, back: Position, m: Move, u: Undo)
    requires
        p.wf(),
        can_make(p@, m),
        is_reversible(p@, m),
        after@ == spec_make(p@, m),
        u == spec_undo(p@, m),
        back.wf(),
        back@ == spec_unmake(after@, m, u),
    ensures
        back == p,
{
    lemma_make_unmake(p@, m);
    Position::lemma_view_injective(back, p);
}

/// The number of squares below `n` whose index satisfies `f`.
pub open spec fn count_squares(f: spec_fn(int) -> bool, n: int) -> nat
    decreases n,
{
    if n <= 0 {
        0
    } else {
        count_squares(f, n - 1) + if f(n - 1) {
            1nat
        } else {
            0nat
        }
    }
}

pub proof fn lemma_count_two(f: spec_fn(int) -> bool, n: int, a: int, b: int)
    requires
        0 <= a < n,
        0 <= b < n,
        a != b,
        f(a),
        f(b),
    ensures
        count_squares(f, n) >= 2,
    decreases n,
{
    if a == n - 1 || b == n - 1 {
        let o = if a == n - 1 { b } else { a };
        lemma_count_one(f, n - 1, o);
    } else {
        lemma_count_two(f, n - 1, a, b);
    }
}

pub proof fn lemma_count_one(f: spec_fn(int) -> bool, n: int, a: int)
    requires
        0 <= a < n,
        f(a),
    ensures
        count_squares(f, n) >= 1,
    decreases n,
{
    if a != n - 1 {
        lemma_count_one(f, n - 1, a);
    }
}

pub open spec fn is_king_of(board: Seq<Option<Piece>>, c: Color) -> spec_fn(int) -> bool {
    |i: int| is_piece(board[i], c, PieceKind::King)
}

/// The square of the king of color `c`, when there is exactly one such king.
pub open spec fn king_square_of(board: Seq<Option<Piece>>, c: Color) -> Option<int> {
    if count_squares(is_king_of(board, c), 64) == 1 {
        Some(choose|i: int| 0 <= i < 64 && is_piece(board[i], c, PieceKind::King))
    } else {
        None
    }
}

/// Square index `i` is a light square.
pub open spec fn is_light(i: int) -> bool {
    (file_of(i) + rank_of(i)) % 2 == 1
}

/// The conservative dead-material cases: no pawns, rooks or queens, and either no bishop and
/// at most one knight, or no knight and all bishops on squares of one color.
pub open spec fn insufficient_material(board: Seq<Option<Piece>>) -> bool {
    &&& forall|i: int|
        0 <= i < 64 ==> !is_kind(#[trigger] board[i], PieceKind::Pawn) && !is_kind(
            board[i],
            PieceKind::Rook,
        ) && !is_kind(board[i], PieceKind::Queen)
    &&& if forall|i: int| 0 <= i < 64 ==> !is_kind(#[trigger] board[i], PieceKind::Bishop) {
        forall|i: int, j: int|
            0 <= i < 64 && 0 <= j < 64 && is_kind(#[trigger] board[i], PieceKind::Knight) && is_kind(
                #[trigger] board[j],
                PieceKind::Knight,
            ) ==> i == j
    } else {
        &&& forall|i: int| 0 <= i < 64 ==> !is_kind(#[trigger] board[i], PieceKind::Knight)
        &&& forall|i: int, j: int|
            0 <= i < 64 && 0 <= j < 64 && is_kind(#[trigger] board[i], PieceKind::Bishop) && is_kind(
                #[trigger] board[j],
                PieceKind::Bishop,
            ) ==> is_light(i) == is_light(j)
    }
}

impl Position {
    /// The square of `color`'s king, if it has exactly one.
    pub fn king_square(&self, color: Color) -> (r: Option<Square>)
        requires
            self.wf(),
        ensures
            match r {
                Some(s) => king_square_of(self@.board, color) == Some(s@),
                None => king_square_of(self@.board, color) is None,
            },
    {
        let ghost f = is_king_of(self@.board, color);
        let mut count: u8 = 0;
        let mut found: u8 = 0;
        let mut i: u8 = 0;
        while i < 64
            invariant
                0 <= i <= 64,
                f == is_king_of(self@.board, color),
                count == if count_squares(f, i as int) >= 2 {
                    2
                } else {
                    count_squares(f, i as int)
                },
                count >= 1 ==> found < i && f(found as int),
                count == 1 ==> forall|j: int| 0 <= j < i && #[trigger] f(j) ==> j == found,
            decreases 64 - i,
        {
            let is_king = match self.squares[i as usize] {
                Some(p) => p.color.index() == color.index() && p.kind.index() == 5,
                None => false,
            };
            assert(is_king == f(i as int));
            if is_king {
                proof {
                    if count == 0 {
                        assert forall|j: int| 0 <= j < i && #[trigger] f(j) implies j == i by {
                            lemma_count_one(f, i as int, j);
                        }
                    }
                }
                if count < 2 {
                    count = count + 1;
                }
                found = i;
            }
            i = i + 1;
        }
        if count == 1 {
            proof {
                assert(is_piece(self@.board[found as int], color, PieceKind::King));
                let k = choose|j: int| 0 <= j < 64 && is_piece(self@.board[j], color, PieceKind::King);
                assert(f(k));
                assert(f(found as int));
                assert(k == found as int);
            }
            Some(Square::new(found).unwrap())
        } else {
            proof {
                if count_squares(f, 64) == 1 {
                    assert(count == 1);
                }
            }
            None
        }
    }

    /// Whether the remaining material cannot produce checkmate, recognizing only the
    /// conservative cases of `insufficient_material`.
    pub fn is_insufficient_material(&self) -> (r: bool)
        requires
            self.wf(),
        ensures
            r == insufficient_material(self@.board),
    {
        let ghost b = self@.board;
        let mut heavy = false;
        let mut knights: u8 = 0;
        let mut knight_at: u8 = 0;
        let mut light_bishop = false;
        let mut dark_bishop = false;
        let mut light_at: u8 = 0;
        let mut dark_at: u8 = 0;
        let mut i: u8 = 0;
        while i < 64
            invariant
                0 <= i <= 64,
                b == self@.board,
                b.len() == 64,
                heavy == exists|j: int|
                    0 <= j < i && (is_kind(#[trigger] b[j], PieceKind::Pawn) || is_kind(
                        b[j],
                        PieceKind::Rook,
                    ) || is_kind(b[j], PieceKind::Queen)),
                knights <= 2,
                knights == 0 <==> forall|j: int| 0 <= j < i ==> !is_kind(#[trigger] b[j], PieceKind::Knight),
                knights >= 1 ==> knight_at < i && is_kind(b[knight_at as int], PieceKind::Knight),
                knights <= 1 <==> forall|j: int, k: int|
                    0 <= j < i && 0 <= k < i && is_kind(#[trigger] b[j], PieceKind::Knight)
                        && is_kind(#[trigger] b[k], PieceKind::Knight) ==> j == k,
                light_bishop ==> light_at < i && is_kind(b[light_at as int], PieceKind::Bishop) && is_light(light_at as int),
                dark_bishop ==> dark_at < i && is_kind(b[dark_at as int], PieceKind::Bishop) && !is_light(dark_at as int),
                forall|j: int|
                    0 <= j < i && is_kind(#[trigger] b[j], PieceKind::Bishop) ==> if is_light(j) {
                        light_bishop
                    } else {
                        dark_bishop
                    },
            decreases 64 - i,
        {
            let sq = self.squares[i as usize];
            match sq {
                Some(p) => {
                    match p.kind {
                        PieceKind::Pawn | PieceKind::Rook | PieceKind::Queen => {
                            heavy = true;
                        },
                        PieceKind::Knight => {
                            if knights < 2 {
                                knights = knights + 1;
                            }
                            knight_at = i;
                        },
                        PieceKind::Bishop => {
                            if (i % 8 + i / 8) % 2 == 1 {
                                light_bishop = true;
                                light_at = i;
                            } else {
                                dark_bishop = true;
                                dark_at = i;
                            }
                        },
                        PieceKind::King => {},
                    }
                },
                None => {},
            }
            i = i + 1;
        }
        let any_bishop = light_bishop || dark_bishop;
        let r = if heavy {
            false
        } else if !any_bishop {
            knights <= 1
        } else if knights != 0 {
            false
        } else {
            !(light_bishop && dark_bishop)
        };
        proof {
            if !heavy && any_bishop && knights == 0 && !(light_bishop && dark_bishop) {
                assert forall|x: int, y: int|
                    0 <= x < 64 && 0 <= y < 64 && is_kind(#[trigger] b[x], PieceKind::Bishop) && is_kind(
                        #[trigger] b[y],
                        PieceKind::Bishop,
                    ) implies is_light(x) == is_light(y) by {
                    if is_light(x) != is_light(y) {
                        assert(light_bishop && dark_bishop);
                    }
                }
            }
            if any_bishop {
                let w = if light_bishop { light_at } else { dark_at };
                assert(is_kind(b[w as int], PieceKind::Bishop));
            }
            if light_bishop && dark_bishop {
                assert(is_kind(b[light_at as int], PieceKind::Bishop));
                assert(is_kind(b[dark_at as int], PieceKind::Bishop));
            }
            if knights >= 1 {
                assert(is_kind(b[knight_at as int], PieceKind::Knight));
            }
        }
        r
    }
}
} // verus!
