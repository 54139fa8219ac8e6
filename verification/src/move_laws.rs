//! Facts about the moves the generator produces: where each pseudo-legal move comes from and
//! goes to, which moves promote, that no move is produced twice, and which moves the
//! king-safety filter keeps.
use vstd::prelude::*;
use crate::bitboard::{Color, PieceKind, Square, rank_of};
use crate::chess_move::{Move, Promotion};
use crate::movegen::{
    legal_seq, lemma_castle_move_ok, lemma_target_move_ok, move_ok, attacker_at, occupied_of, pawns_of, castle_move, castle_moves, can_castle_kingside, can_castle_queenside, is_move_target,
    keeps_king_safe, moves_between, promotes, pseudo_legal_seq, reaches, safe_moves,
    square_moves, target_moves,
};
use crate::position::{
    PositionView, is_color, is_kind, lemma_make_keeps_board_size, lemma_make_unmake, spec_make,
    spec_undo, spec_unmake,
};

verus! {

broadcast use {Square::lemma_view_bounds, Square::lemma_from_index, Square::lemma_from_index_view};

pub proof fn lemma_concat_contains<A>(a: Seq<A>, b: Seq<A>, x: A)
    ensures
        (a + b).contains(x) <==> (a.contains(x) || b.contains(x)),
{
    if (a + b).contains(x) {
        let i = choose|i: int| 0 <= i < (a + b).len() && (a + b)[i] == x;
        if i < a.len() {
            assert(a[i] == x);
        } else {
            assert(b[i - a.len()] == x);
        }
    }
    if a.contains(x) {
        let i = choose|i: int| 0 <= i < a.len() && a[i] == x;
        assert((a + b)[i] == x);
    }
    if b.contains(x) {
        let i = choose|i: int| 0 <= i < b.len() && b[i] == x;
        assert((a + b)[i + a.len()] == x);
    }
}

/// A move among those between two squares goes between those squares.
pub proof fn lemma_moves_between_ends(v: PositionView, from: int, to: int, m: Move)
    requires
        moves_between(v, from, to).contains(m),
    ensures
        m.from == Square::from_index(from),
        m.to == Square::from_index(to),
{
    let s = moves_between(v, from, to);
    let i = choose|i: int| 0 <= i < s.len() && s[i] == m;
}

/// A move the piece on `from` makes to a target below `t` comes from one of those targets.
pub proof fn lemma_target_moves_source(v: PositionView, from: int, t: int, m: Move) -> (to: int)
    requires
        target_moves(v, from, t).contains(m),
    ensures
        0 <= to < t,
        is_move_target(v, from, to),
        moves_between(v, from, to).contains(m),
    decreases t,
{
    if t <= 0 {
        assert(false);
        0
    } else {
        let tail = if is_move_target(v, from, t - 1) {
            moves_between(v, from, t - 1)
        } else {
            seq![]
        };
        lemma_concat_contains(target_moves(v, from, t - 1), tail, m);
        if target_moves(v, from, t - 1).contains(m) {
            lemma_target_moves_source(v, from, t - 1, m)
        } else {
            t - 1
        }
    }
}

pub proof fn lemma_target_moves_include(v: PositionView, from: int, t: int, to: int, m: Move)
    requires
        0 <= to < t,
        is_move_target(v, from, to),
        moves_between(v, from, to).contains(m),
    ensures
        target_moves(v, from, t).contains(m),
    decreases t,
{
    let tail = if is_move_target(v, from, t - 1) {
        moves_between(v, from, t - 1)
    } else {
        seq![]
    };
    lemma_concat_contains(target_moves(v, from, t - 1), tail, m);
    if to < t - 1 {
        lemma_target_moves_include(v, from, t - 1, to, m);
    }
}

/// A non-castling pseudo-legal move comes from a square of the side to move, to one of that
/// piece's targets.
pub proof fn lemma_square_moves_source(v: PositionView, f: int, m: Move) -> (from: int)
    requires
        square_moves(v, f).contains(m),
    ensures
        0 <= from < f,
        is_color(v.board[from], v.side),
        target_moves(v, from, 64).contains(m),
    decreases f,
{
    if f <= 0 {
        assert(false);
        0
    } else {
        let tail = if is_color(v.board[f - 1], v.side) {
            target_moves(v, f - 1, 64)
        } else {
            seq![]
        };
        lemma_concat_contains(square_moves(v, f - 1), tail, m);
        if square_moves(v, f - 1).contains(m) {
            lemma_square_moves_source(v, f - 1, m)
        } else {
            f - 1
        }
    }
}

pub proof fn lemma_square_moves_include(v: PositionView, f: int, from: int, m: Move)
    requires
        0 <= from < f,
        is_color(v.board[from], v.side),
        target_moves(v, from, 64).contains(m),
    ensures
        square_moves(v, f).contains(m),
    decreases f,
{
    let tail = if is_color(v.board[f - 1], v.side) {
        target_moves(v, f - 1, 64)
    } else {
        seq![]
    };
    lemma_concat_contains(square_moves(v, f - 1), tail, m);
    if from < f - 1 {
        lemma_square_moves_include(v, f - 1, from, m);
    }
}

/// The moves kept by the king-safety filter are those of `s` that keep the king safe.
pub proof fn lemma_safe_moves_contains(v: PositionView, s: Seq<Move>, m: Move)
    ensures
        safe_moves(v, s).contains(m) <==> (s.contains(m) && keeps_king_safe(v, m)),
    decreases s.len(),
{
    if s.len() > 0 {
        let tail = if keeps_king_safe(v, s.last()) {
            seq![s.last()]
        } else {
            seq![]
        };
        lemma_safe_moves_contains(v, s.drop_last(), m);
        lemma_concat_contains(safe_moves(v, s.drop_last()), tail, m);
        lemma_concat_contains(s.drop_last(), seq![s.last()], m);
        assert(s =~= s.drop_last() + seq![s.last()]);
    }
}

/// A king of the other side on the mover's king start square (e1 or e8) attacks the squares
/// beside it, which castling would cross, so no castling move is generated then.
proof fn lemma_enemy_king_blocks_castling(v: PositionView)
    requires
        v.board.len() == 64,
        ({
            let start = if v.side == Color::White {
                4int
            } else {
                60int
            };
            is_kind(v.board[start], PieceKind::King) && !is_color(v.board[start], v.side)
        }),
    ensures
        !can_castle_kingside(v),
        !can_castle_queenside(v),
{
    let them = v.side.spec_opposite();
    let start = if v.side == Color::White {
        4int
    } else {
        60int
    };
    assert(is_color(v.board[start], them));
    assert(attacker_at(v.board, start + 1, them, pawns_of(v.board, them), occupied_of(v.board), start));
    assert(attacker_at(v.board, start - 1, them, pawns_of(v.board, them), occupied_of(v.board), start));
}

/// Every pseudo-legal move takes a piece of the side to move to an empty square or onto an
/// enemy piece other than the king; it promotes exactly when a pawn reaches the first or last
/// rank, and then all four promotions of that step are generated.
pub proof fn lemma_pseudo_legal_move_shape(v: PositionView, m: Move)
    requires
        v.board.len() == 64,
        pseudo_legal_seq(v).contains(m),
    ensures
        m.from@ < 64,
        m.to@ < 64,
        is_color(v.board[m.from@], v.side),
        v.board[m.to@] is None || (is_color(v.board[m.to@], v.side.spec_opposite()) && !is_kind(
            v.board[m.to@],
            PieceKind::King,
        )),
        m.promotion is Some <==> (is_kind(v.board[m.from@], PieceKind::Pawn) && (rank_of(m.to@) == 0
            || rank_of(m.to@) == 7)),
        m.promotion is Some ==> forall|p: Promotion|
            #[trigger] pseudo_legal_seq(v).contains(Move { from: m.from, to: m.to, promotion: Some(p) }),
{
    lemma_concat_contains(square_moves(v, 64), castle_moves(v), m);
    if square_moves(v, 64).contains(m) {
        let from = lemma_square_moves_source(v, 64, m);
        let to = lemma_target_moves_source(v, from, 64, m);
        lemma_moves_between_ends(v, from, to, m);
        let mb = moves_between(v, from, to);
        let i = choose|i: int| 0 <= i < mb.len() && mb[i] == m;
        if m.promotion is Some {
            assert forall|p: Promotion| #[trigger] pseudo_legal_seq(v).contains(
                Move { from: m.from, to: m.to, promotion: Some(p) },
            ) by {
                let q = Move { from: m.from, to: m.to, promotion: Some(p) };
                let j: int = match p {
                    Promotion::Queen => 0,
                    Promotion::Rook => 1,
                    Promotion::Bishop => 2,
                    Promotion::Knight => 3,
                };
                assert(mb[j] == q);
                assert(mb.contains(q));
                lemma_target_moves_include(v, from, 64, to, q);
                lemma_square_moves_include(v, 64, from, q);
                lemma_concat_contains(square_moves(v, 64), castle_moves(v), q);
            }
        }
    } else {
        let start = if v.side == Color::White {
            4int
        } else {
            60int
        };
        if is_kind(v.board[start], PieceKind::King) && !is_color(v.board[start], v.side) {
            lemma_enemy_king_blocks_castling(v);
        }
        let k1 = if can_castle_kingside(v) {
            seq![castle_move(v, 6)]
        } else {
            seq![]
        };
        let k2 = if can_castle_queenside(v) {
            seq![castle_move(v, 2)]
        } else {
            seq![]
        };
        lemma_concat_contains(k1, k2, m);
        if k1.contains(m) {
            assert(m == castle_move(v, 6));
        } else {
            assert(m == castle_move(v, 2));
        }
    }
}

pub proof fn lemma_concat_no_duplicates<A>(a: Seq<A>, b: Seq<A>)
    requires
        a.no_duplicates(),
        b.no_duplicates(),
        forall|x: A| a.contains(x) ==> !b.contains(x),
    ensures
        (a + b).no_duplicates(),
{
    let c = a + b;
    assert forall|i: int, j: int| 0 <= i < c.len() && 0 <= j < c.len() && i != j implies c[i] != c[j] by {
        if i < a.len() && j >= a.len() {
            assert(a.contains(c[i]));
            assert(b.contains(c[j]));
        } else if j < a.len() && i >= a.len() {
            assert(a.contains(c[j]));
            assert(b.contains(c[i]));
        } else if i >= a.len() && j >= a.len() {
            assert(c[i] == b[i - a.len()] && c[j] == b[j - a.len()]);
        } else {
            assert(c[i] == a[i] && c[j] == a[j]);
        }
    }
}

proof fn lemma_target_moves_no_duplicates(v: PositionView, from: int, t: int)
    requires
        0 <= t <= 64,
    ensures
        target_moves(v, from, t).no_duplicates(),
    decreases t,
{
    if t > 0 {
        lemma_target_moves_no_duplicates(v, from, t - 1);
        let tail = if is_move_target(v, from, t - 1) {
            moves_between(v, from, t - 1)
        } else {
            seq![]
        };
        let mb = moves_between(v, from, t - 1);
        assert(mb.no_duplicates());
        assert forall|x: Move| target_moves(v, from, t - 1).contains(x) implies !tail.contains(x) by {
            let to = lemma_target_moves_source(v, from, t - 1, x);
            lemma_moves_between_ends(v, from, to, x);
            assert(x.to@ == to);
            if tail.contains(x) {
                lemma_moves_between_ends(v, from, t - 1, x);
                assert(x.to@ == t - 1);
            }
        }
        lemma_concat_no_duplicates(target_moves(v, from, t - 1), tail);
    }
}

proof fn lemma_square_moves_no_duplicates(v: PositionView, f: int)
    requires
        0 <= f <= 64,
        v.board.len() == 64,
    ensures
        square_moves(v, f).no_duplicates(),
    decreases f,
{
    if f > 0 {
        lemma_square_moves_no_duplicates(v, f - 1);
        lemma_target_moves_no_duplicates(v, f - 1, 64);
        let tail = if is_color(v.board[f - 1], v.side) {
            target_moves(v, f - 1, 64)
        } else {
            seq![]
        };
        assert forall|x: Move| square_moves(v, f - 1).contains(x) implies !tail.contains(x) by {
            let from = lemma_square_moves_source(v, f - 1, x);
            let to = lemma_target_moves_source(v, from, 64, x);
            lemma_moves_between_ends(v, from, to, x);
            assert(x.from@ == from);
            if tail.contains(x) {
                let to2 = lemma_target_moves_source(v, f - 1, 64, x);
                lemma_moves_between_ends(v, f - 1, to2, x);
                assert(x.from@ == f - 1);
            }
        }
        lemma_concat_no_duplicates(square_moves(v, f - 1), tail);
    }
}

/// The generator never produces the same move twice.
pub proof fn lemma_pseudo_legal_no_duplicates(v: PositionView)
    requires
        v.board.len() == 64,
    ensures
        pseudo_legal_seq(v).no_duplicates(),
{
    lemma_square_moves_no_duplicates(v, 64);
    let k1 = if can_castle_kingside(v) {
        seq![castle_move(v, 6)]
    } else {
        seq![]
    };
    let k2 = if can_castle_queenside(v) {
        seq![castle_move(v, 2)]
    } else {
        seq![]
    };
    let rank = if v.side == Color::White {
        0int
    } else {
        7int
    };
    assert(castle_move(v, 6).to@ == rank * 8 + 6);
    assert(castle_move(v, 2).to@ == rank * 8 + 2);
    assert forall|x: Move| k1.contains(x) implies !k2.contains(x) by {}
    lemma_concat_no_duplicates(k1, k2);
    assert forall|x: Move| square_moves(v, 64).contains(x) implies !castle_moves(v).contains(x) by {
        let from = lemma_square_moves_source(v, 64, x);
        let to = lemma_target_moves_source(v, from, 64, x);
        lemma_moves_between_ends(v, from, to, x);
        assert(x.from@ == from);
        assert(x.to@ == to);
        if castle_moves(v).contains(x) {
            lemma_concat_contains(k1, k2, x);
            assert(castle_move(v, 6).from@ == rank * 8 + 4);
            assert(castle_move(v, 2).from@ == rank * 8 + 4);
            assert(from == rank * 8 + 4);
            assert(is_kind(v.board[from], PieceKind::King));
            assert(reaches(v, v.side, PieceKind::King, from, to));
        }
    }
    lemma_concat_no_duplicates(square_moves(v, 64), castle_moves(v));
}

/// Every legal move can be made and taken back.
pub proof fn lemma_legal_move_ok(v: PositionView, m: Move)
    requires
        v.board.len() == 64,
        legal_seq(v).contains(m),
    ensures
        move_ok(v, m),
{
    lemma_safe_moves_contains(v, pseudo_legal_seq(v), m);
    lemma_concat_contains(square_moves(v, 64), castle_moves(v), m);
    if square_moves(v, 64).contains(m) {
        let from = lemma_square_moves_source(v, 64, m);
        let to = lemma_target_moves_source(v, from, 64, m);
        lemma_target_move_ok(v, from, to);
        let mb = moves_between(v, from, to);
        let i = choose|i: int| 0 <= i < mb.len() && mb[i] == m;
        assert(move_ok(v, mb[i]));
    } else {
        let k1 = if can_castle_kingside(v) {
            seq![castle_move(v, 6)]
        } else {
            seq![]
        };
        let k2 = if can_castle_queenside(v) {
            seq![castle_move(v, 2)]
        } else {
            seq![]
        };
        lemma_concat_contains(k1, k2, m);
        if k1.contains(m) {
            assert(m == castle_move(v, 6));
            lemma_castle_move_ok(v, 6);
        } else {
            assert(m == castle_move(v, 2));
            lemma_castle_move_ok(v, 2);
        }
    }
}

/// The position reached by playing the moves of `ms` in order from `v`.
pub open spec fn played_from(v: PositionView, ms: Seq<Move>) -> PositionView
    decreases ms.len(),
{
    if ms.len() == 0 {
        v
    } else {
        spec_make(played_from(v, ms.drop_last()), ms.last())
    }
}

/// Each move of `ms` is legal in the position where it is played.
pub open spec fn legal_line(v: PositionView, ms: Seq<Move>) -> bool {
    forall|i: int| 0 <= i < ms.len() ==> #[trigger] legal_seq(played_from(v, ms.take(i))).contains(ms[i])
}

/// Taking back the moves of `ms` from `w`, last move first, each with the record that making it
/// (in the line played from `v`) returned.
pub open spec fn taken_back(w: PositionView, v: PositionView, ms: Seq<Move>) -> PositionView
    decreases ms.len(),
{
    if ms.len() == 0 {
        w
    } else {
        let pre = ms.drop_last();
        taken_back(spec_unmake(w, ms.last(), spec_undo(played_from(v, pre), ms.last())), v, pre)
    }
}

/// Playing a line of legal moves and taking them back in reverse order, each with the record
/// its making returned, restores the starting position exactly.
pub proof fn lemma_line_taken_back(v: PositionView, ms: Seq<Move>)
    requires
        v.board.len() == 64,
        legal_line(v, ms),
    ensures
        played_from(v, ms).board.len() == 64,
        taken_back(played_from(v, ms), v, ms) == v,
    decreases ms.len(),
{
    if ms.len() > 0 {
        let pre = ms.drop_last();
        assert forall|i: int| 0 <= i < pre.len() implies #[trigger] legal_seq(
            played_from(v, pre.take(i)),
        ).contains(pre[i]) by {
            assert(pre.take(i) =~= ms.take(i));
            assert(legal_seq(played_from(v, ms.take(i))).contains(ms[i]));
        }
        lemma_line_taken_back(v, pre);
        let w = played_from(v, pre);
        let m = ms.last();
        assert(ms.take(ms.len() - 1) =~= pre);
        assert(legal_seq(played_from(v, ms.take(ms.len() - 1))).contains(ms[ms.len() - 1]));
        lemma_legal_move_ok(w, m);
        lemma_make_keeps_board_size(w, m);
        lemma_make_unmake(w, m);
    }
}

} // verus!
