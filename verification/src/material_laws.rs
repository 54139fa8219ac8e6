//! The dead-material rule in the bitboard form: no pawns, rooks or queens, and either no
//! bishop and at most one knight, or no knight and all bishops on squares of one color.
use vstd::prelude::*;
use crate::bitboard::{Piece, PieceKind};
use crate::bits::{bit, lemma_bit_and, lemma_bit_not, lemma_bit_or, lemma_bit_zero, lemma_zero_from_bits};
use crate::position::{count_squares, insufficient_material, is_kind, is_light, lemma_count_two};

verus! {

/// The light squares (b1, a2, ...) as a bitboard.
pub const LIGHT_SQUARES: u64 = 0x55aa_55aa_55aa_55aa;

/// The set bits of `b` are the squares holding a piece of kind `k`, of either color.
pub open spec fn marks_kind(board: Seq<Option<Piece>>, b: u64, k: PieceKind) -> bool {
    forall|i: int| 0 <= i < 64 ==> #[trigger] bit(b, i) == is_kind(board[i], k)
}

/// How many bits of `b` are set.
pub open spec fn set_bits(b: u64) -> nat {
    count_squares(|i: int| bit(b, i), 64)
}

proof fn lemma_light_mask(i: int)
    requires
        0 <= i < 64,
    ensures
        bit(LIGHT_SQUARES, i) == is_light(i),
{
    let k = i as u64;
    assert(((0x55aa_55aa_55aa_55aau64 >> k) & 1u64 == 1u64) == ((k % 8 + k / 8) % 2 == 1))
        by (bit_vector)
        requires
            k < 64,
    ;
}

proof fn lemma_zero_iff_no_bits(x: u64)
    ensures
        (x == 0) == (forall|i: int| 0 <= i < 64 ==> !#[trigger] bit(x, i)),
{
    if forall|i: int| 0 <= i < 64 ==> !#[trigger] bit(x, i) {
        lemma_zero_from_bits(x);
    }
    if x == 0 {
        assert forall|i: int| 0 <= i < 64 implies !#[trigger] bit(x, i) by {
            lemma_bit_zero(i);
        }
    }
}

proof fn lemma_count_two_witnesses(f: spec_fn(int) -> bool, n: int)
    requires
        count_squares(f, n) >= 2,
    ensures
        exists|i: int, j: int| 0 <= i < n && 0 <= j < n && i != j && #[trigger] f(i) && #[trigger] f(j),
    decreases n,
{
    if n > 0 {
        if f(n - 1) {
            lemma_count_one_witness(f, n - 1);
            let i = choose|i: int| 0 <= i < n - 1 && #[trigger] f(i);
            assert(f(i) && f(n - 1));
        } else {
            lemma_count_two_witnesses(f, n - 1);
        }
    }
}

proof fn lemma_count_one_witness(f: spec_fn(int) -> bool, n: int)
    requires
        count_squares(f, n) >= 1,
    ensures
        exists|i: int| 0 <= i < n && #[trigger] f(i),
    decreases n,
{
    if n > 0 && !f(n - 1) {
        lemma_count_one_witness(f, n - 1);
    }
}

/// At most one bit of `b` is set exactly when any two set bits are the same bit.
proof fn lemma_at_most_one_bit(b: u64)
    ensures
        (set_bits(b) <= 1) == (forall|i: int, j: int|
            0 <= i < 64 && 0 <= j < 64 && #[trigger] bit(b, i) && #[trigger] bit(b, j) ==> i == j),
{
    let f = |i: int| bit(b, i);
    if set_bits(b) >= 2 {
        lemma_count_two_witnesses(f, 64);
        let (i, j) = choose|i: int, j: int| 0 <= i < 64 && 0 <= j < 64 && i != j && #[trigger] f(i) && #[trigger] f(j);
        assert(bit(b, i) && bit(b, j));
    } else {
        assert forall|i: int, j: int|
            0 <= i < 64 && 0 <= j < 64 && #[trigger] bit(b, i) && #[trigger] bit(b, j) implies i == j by {
            if i != j {
                assert(f(i) && f(j));
                lemma_count_two(f, 64, i, j);
            }
        }
    }
}

/// The dead-material rule read off the piece bitboards (each the union of both colors): no
/// pawns, rooks or queens, and either no bishop and at most one knight, or no knight and
/// every bishop on a light square or every bishop on a dark one.
pub proof fn lemma_insufficient_material_bitboards(
    board: Seq<Option<Piece>>,
    pawns: u64,
    knights: u64,
    bishops: u64,
    rooks: u64,
    queens: u64,
)
    requires
        board.len() == 64,
        marks_kind(board, pawns, PieceKind::Pawn),
        marks_kind(board, knights, PieceKind::Knight),
        marks_kind(board, bishops, PieceKind::Bishop),
        marks_kind(board, rooks, PieceKind::Rook),
        marks_kind(board, queens, PieceKind::Queen),
    ensures
        insufficient_material(board) == ((pawns | rooks | queens) == 0 && ((bishops == 0 && set_bits(
            knights,
        ) <= 1) || (knights == 0 && ((bishops & LIGHT_SQUARES) == 0 || (bishops & !LIGHT_SQUARES)
            == 0)))),
{
    let heavy = pawns | rooks | queens;
    assert forall|i: int| 0 <= i < 64 implies #[trigger] bit(heavy, i) == (is_kind(board[i], PieceKind::Pawn)
        || is_kind(board[i], PieceKind::Rook) || is_kind(board[i], PieceKind::Queen)) by {
        lemma_bit_or(pawns, rooks, i);
        lemma_bit_or(pawns | rooks, queens, i);
        assert(bit(pawns, i) == is_kind(board[i], PieceKind::Pawn));
        assert(bit(rooks, i) == is_kind(board[i], PieceKind::Rook));
        assert(bit(queens, i) == is_kind(board[i], PieceKind::Queen));
    }
    lemma_zero_iff_no_bits(heavy);
    lemma_zero_iff_no_bits(bishops);
    lemma_zero_iff_no_bits(knights);
    lemma_at_most_one_bit(knights);
    let light = bishops & LIGHT_SQUARES;
    let dark = bishops & !LIGHT_SQUARES;
    assert forall|i: int| 0 <= i < 64 implies #[trigger] bit(light, i) == (is_kind(board[i], PieceKind::Bishop)
        && is_light(i)) by {
        lemma_bit_and(bishops, LIGHT_SQUARES, i);
        lemma_light_mask(i);
        assert(bit(bishops, i) == is_kind(board[i], PieceKind::Bishop));
    }
    assert forall|i: int| 0 <= i < 64 implies #[trigger] bit(dark, i) == (is_kind(board[i], PieceKind::Bishop)
        && !is_light(i)) by {
        lemma_bit_and(bishops, !LIGHT_SQUARES, i);
        lemma_bit_not(LIGHT_SQUARES, i);
        lemma_light_mask(i);
        assert(bit(bishops, i) == is_kind(board[i], PieceKind::Bishop));
    }
    lemma_zero_iff_no_bits(light);
    lemma_zero_iff_no_bits(dark);
    let no_heavy = forall|i: int|
        0 <= i < 64 ==> !is_kind(#[trigger] board[i], PieceKind::Pawn) && !is_kind(
            board[i],
            PieceKind::Rook,
        ) && !is_kind(board[i], PieceKind::Queen);
    assert(no_heavy == (heavy == 0)) by {
        if heavy == 0 {
            assert forall|i: int| 0 <= i < 64 implies !is_kind(#[trigger] board[i], PieceKind::Pawn)
                && !is_kind(board[i], PieceKind::Rook) && !is_kind(board[i], PieceKind::Queen) by {
                assert(!bit(heavy, i));
            }
        }
        if no_heavy {
            assert forall|i: int| 0 <= i < 64 implies !#[trigger] bit(heavy, i) by {
                assert(!is_kind(board[i], PieceKind::Pawn));
            }
        }
    }
    let no_bishop = forall|i: int| 0 <= i < 64 ==> !is_kind(#[trigger] board[i], PieceKind::Bishop);
    assert(no_bishop == (bishops == 0)) by {
        if bishops == 0 {
            assert forall|i: int| 0 <= i < 64 implies !is_kind(#[trigger] board[i], PieceKind::Bishop) by {
                assert(!bit(bishops, i));
            }
        }
        if no_bishop {
            assert forall|i: int| 0 <= i < 64 implies !#[trigger] bit(bishops, i) by {
                assert(!is_kind(board[i], PieceKind::Bishop));
            }
        }
    }
    let no_knight = forall|i: int| 0 <= i < 64 ==> !is_kind(#[trigger] board[i], PieceKind::Knight);
    assert(no_knight == (knights == 0)) by {
        if knights == 0 {
            assert forall|i: int| 0 <= i < 64 implies !is_kind(#[trigger] board[i], PieceKind::Knight) by {
                assert(!bit(knights, i));
            }
        }
        if no_knight {
            assert forall|i: int| 0 <= i < 64 implies !#[trigger] bit(knights, i) by {
                assert(!is_kind(board[i], PieceKind::Knight));
            }
        }
    }
    let one_knight = forall|i: int, j: int|
        0 <= i < 64 && 0 <= j < 64 && is_kind(#[trigger] board[i], PieceKind::Knight) && is_kind(
            #[trigger] board[j],
            PieceKind::Knight,
        ) ==> i == j;
    assert(one_knight == (set_bits(knights) <= 1)) by {
        if set_bits(knights) <= 1 {
            assert forall|i: int, j: int|
                0 <= i < 64 && 0 <= j < 64 && is_kind(#[trigger] board[i], PieceKind::Knight) && is_kind(
                    #[trigger] board[j],
                    PieceKind::Knight,
                ) implies i == j by {
                assert(bit(knights, i) && bit(knights, j));
            }
        }
        if one_knight {
            assert forall|i: int, j: int|
                0 <= i < 64 && 0 <= j < 64 && #[trigger] bit(knights, i) && #[trigger] bit(knights, j)
                    implies i == j by {
                assert(is_kind(board[i], PieceKind::Knight) && is_kind(board[j], PieceKind::Knight));
            }
        }
    }
    let one_color = forall|i: int, j: int|
        0 <= i < 64 && 0 <= j < 64 && is_kind(#[trigger] board[i], PieceKind::Bishop) && is_kind(
            #[trigger] board[j],
            PieceKind::Bishop,
        ) ==> is_light(i) == is_light(j);
    assert(one_color == (light == 0 || dark == 0)) by {
        if light == 0 || dark == 0 {
            assert forall|i: int, j: int|
                0 <= i < 64 && 0 <= j < 64 && is_kind(#[trigger] board[i], PieceKind::Bishop) && is_kind(
                    #[trigger] board[j],
                    PieceKind::Bishop,
                ) implies is_light(i) == is_light(j) by {
                assert(bit(light, i) == is_light(i));
                assert(bit(light, j) == is_light(j));
                assert(bit(dark, i) == !is_light(i));
                assert(bit(dark, j) == !is_light(j));
            }
        }
        if one_color && light != 0 {
            let i = choose|i: int| 0 <= i < 64 && #[trigger] bit(light, i);
            assert(is_kind(board[i], PieceKind::Bishop) && is_light(i));
            assert forall|j: int| 0 <= j < 64 implies !#[trigger] bit(dark, j) by {
                if bit(dark, j) {
                    assert(is_kind(board[j], PieceKind::Bishop) && !is_light(j));
                }
            }
        }
    }
}

} // verus!
