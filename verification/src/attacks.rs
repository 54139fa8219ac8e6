//! Attack sets of single pieces; sliding attacks walk rays and include the first blocker.
use vstd::prelude::*;
use crate::bits::{bit, lemma_bit_or, lemma_bit_zero, lemma_bit_and, lemma_nonzero_has_bit};
use crate::bitboard::{Bitboard, Color, Square, file_of, rank_of, on_board, square_at, offset_index};

verus! {

broadcast use {Square::lemma_view_bounds, Square::lemma_from_index, Square::lemma_from_index_view};

pub open spec fn abs(x: int) -> int {
    if x < 0 {
        -x
    } else {
        x
    }
}

/// Files between two square indices (signed).
pub open spec fn file_diff(from: int, to: int) -> int {
    file_of(to) - file_of(from)
}

/// Ranks between two square indices (signed).
pub open spec fn rank_diff(from: int, to: int) -> int {
    rank_of(to) - rank_of(from)
}

pub open spec fn is_square(i: int) -> bool {
    0 <= i < 64
}

/// A knight on `from` attacks `to`.
pub open spec fn knight_target(from: int, to: int) -> bool {
    &&& is_square(from)
    &&& is_square(to)
    &&& ((abs(file_diff(from, to)) == 1 && abs(rank_diff(from, to)) == 2) || (abs(
        file_diff(from, to),
    ) == 2 && abs(rank_diff(from, to)) == 1))
}

/// A king on `from` attacks `to`.
pub open spec fn king_target(from: int, to: int) -> bool {
    &&& is_square(from)
    &&& is_square(to)
    &&& abs(file_diff(from, to)) <= 1
    &&& abs(rank_diff(from, to)) <= 1
    &&& from != to
}

/// The rank direction in which pawns of `color` advance.
pub open spec fn pawn_dir(color: Color) -> int {
    if color == Color::White {
        1
    } else {
        -1
    }
}

/// A pawn of `color` on `from` attacks `to`.
pub open spec fn pawn_target(color: Color, from: int, to: int) -> bool {
    &&& is_square(from)
    &&& is_square(to)
    &&& abs(file_diff(from, to)) == 1
    &&& rank_diff(from, to) == pawn_dir(color)
}

/// `k` steps of size `d` (one of -1, 0, 1).
pub open spec fn steps(d: int, k: int) -> int {
    if d == 0 {
        0
    } else if d > 0 {
        k
    } else {
        -k
    }
}

/// Chebyshev distance between two squares.
pub open spec fn dist(from: int, to: int) -> int {
    if abs(file_diff(from, to)) >= abs(rank_diff(from, to)) {
        abs(file_diff(from, to))
    } else {
        abs(rank_diff(from, to))
    }
}

/// `to` lies on the ray leaving `from` in direction (`df`, `dr`).
pub open spec fn on_ray(from: int, to: int, df: int, dr: int) -> bool {
    &&& is_square(from)
    &&& is_square(to)
    &&& dist(from, to) > 0
    &&& file_diff(from, to) == steps(df, dist(from, to))
    &&& rank_diff(from, to) == steps(dr, dist(from, to))
}

/// Every square of the ray strictly between `from` and `to` is empty.
pub open spec fn ray_clear(from: int, to: int, df: int, dr: int, occupied: spec_fn(int) -> bool) -> bool {
    forall|u: int|
        #![trigger on_ray(from, u, df, dr)]
        on_ray(from, u, df, dr) && dist(from, u) < dist(from, to) ==> !occupied(u)
}

/// A slider on `from` moving in direction (`df`, `dr`) attacks `to`.
pub open spec fn ray_target(from: int, to: int, df: int, dr: int, occupied: spec_fn(int) -> bool) -> bool {
    on_ray(from, to, df, dr) && ray_clear(from, to, df, dr, occupied)
}

pub open spec fn bishop_target(from: int, to: int, occupied: spec_fn(int) -> bool) -> bool {
    ||| ray_target(from, to, 1, 1, occupied)
    ||| ray_target(from, to, -1, 1, occupied)
    ||| ray_target(from, to, 1, -1, occupied)
    ||| ray_target(from, to, -1, -1, occupied)
}

pub open spec fn rook_target(from: int, to: int, occupied: spec_fn(int) -> bool) -> bool {
    ||| ray_target(from, to, 1, 0, occupied)
    ||| ray_target(from, to, -1, 0, occupied)
    ||| ray_target(from, to, 0, 1, occupied)
    ||| ray_target(from, to, 0, -1, occupied)
}

pub open spec fn queen_target(from: int, to: int, occupied: spec_fn(int) -> bool) -> bool {
    bishop_target(from, to, occupied) || rook_target(from, to, occupied)
}

/// The occupancy predicate of a bitboard.
pub open spec fn occ(b: u64) -> spec_fn(int) -> bool {
    |i: int| bit(b, i)
}

pub proof fn lemma_square_coords(i: int)
    requires
        is_square(i),
    ensures
        0 <= file_of(i) < 8,
        0 <= rank_of(i) < 8,
        i == square_at(file_of(i), rank_of(i)),
{
}

pub proof fn lemma_coords_square(f: int, r: int)
    requires
        on_board(f, r),
    ensures
        file_of(square_at(f, r)) == f,
        rank_of(square_at(f, r)) == r,
        is_square(square_at(f, r)),
{
}

/// The single-bit board of the square `df`/`dr` away from `square`, or 0.
fn step_bit(square: Square, df: i8, dr: i8) -> (r: Bitboard)
    requires
        -2 <= df <= 2,
        -2 <= dr <= 2,
    ensures
        forall|t: int| #[trigger]
            bit(r, t) == (offset_index(square@, df as int, dr as int) == Some(t)),
{
    let _f = square.file();
    let _k = square.rank();
    match square.offset(df, dr) {
        Some(s) => s.bit(),
        None => {
            proof {
                assert forall|t: int| #[trigger] bit(0u64, t) == (offset_index(
                    square@,
                    df as int,
                    dr as int,
                ) == Some(t)) by {
                    lemma_bit_zero(t);
                }
            }
            0
        },
    }
}

proof fn lemma_offset_target(s: int, df: int, dr: int, t: int)
    requires
        is_square(s),
        is_square(t),
    ensures
        (offset_index(s, df, dr) == Some(t)) == (file_diff(s, t) == df && rank_diff(s, t) == dr),
{
    lemma_square_coords(s);
    lemma_square_coords(t);
    if on_board(file_of(s) + df, rank_of(s) + dr) {
        lemma_coords_square(file_of(s) + df, rank_of(s) + dr);
    }
}

pub fn knight(square: Square) -> (r: Bitboard)
    ensures
        forall|t: int| #[trigger] bit(r, t) == knight_target(square@, t),
{
    let a = step_bit(square, 1, 2);
    let b = step_bit(square, 2, 1);
    let c = step_bit(square, 2, -1);
    let d = step_bit(square, 1, -2);
    let e = step_bit(square, -1, -2);
    let f = step_bit(square, -2, -1);
    let g = step_bit(square, -2, 1);
    let h = step_bit(square, -1, 2);
    let r = a | b | c | d | e | f | g | h;
    let _idx = square.index();
    proof {
        let ghost s = square@;
        assert forall|t: int| #[trigger] bit(r, t) == knight_target(s, t) by {
            lemma_bit_or(a | b | c | d | e | f | g, h, t);
            lemma_bit_or(a | b | c | d | e | f, g, t);
            lemma_bit_or(a | b | c | d | e, f, t);
            lemma_bit_or(a | b | c | d, e, t);
            lemma_bit_or(a | b | c, d, t);
            lemma_bit_or(a | b, c, t);
            lemma_bit_or(a, b, t);
            if is_square(t) {
                lemma_offset_target(s, 1, 2, t);
                lemma_offset_target(s, 2, 1, t);
                lemma_offset_target(s, 2, -1, t);
                lemma_offset_target(s, 1, -2, t);
                lemma_offset_target(s, -1, -2, t);
                lemma_offset_target(s, -2, -1, t);
                lemma_offset_target(s, -2, 1, t);
                lemma_offset_target(s, -1, 2, t);
            }
        }
    }
    r
}

pub fn king(square: Square) -> (r: Bitboard)
    ensures
        forall|t: int| #[trigger] bit(r, t) == king_target(square@, t),
{
    let a = step_bit(square, 1, 0);
    let b = step_bit(square, 1, 1);
    let c = step_bit(square, 0, 1);
    let d = step_bit(square, -1, 1);
    let e = step_bit(square, -1, 0);
    let f = step_bit(square, -1, -1);
    let g = step_bit(square, 0, -1);
    let h = step_bit(square, 1, -1);
    let r = a | b | c | d | e | f | g | h;
    let _idx = square.index();
    proof {
        let ghost s = square@;
        assert forall|t: int| #[trigger] bit(r, t) == king_target(s, t) by {
            lemma_bit_or(a | b | c | d | e | f | g, h, t);
            lemma_bit_or(a | b | c | d | e | f, g, t);
            lemma_bit_or(a | b | c | d | e, f, t);
            lemma_bit_or(a | b | c | d, e, t);
            lemma_bit_or(a | b | c, d, t);
            lemma_bit_or(a | b, c, t);
            lemma_bit_or(a, b, t);
            if is_square(t) {
                lemma_offset_target(s, 1, 0, t);
                lemma_offset_target(s, 1, 1, t);
                lemma_offset_target(s, 0, 1, t);
                lemma_offset_target(s, -1, 1, t);
                lemma_offset_target(s, -1, 0, t);
                lemma_offset_target(s, -1, -1, t);
                lemma_offset_target(s, 0, -1, t);
                lemma_offset_target(s, 1, -1, t);
                lemma_square_coords(s);
                lemma_square_coords(t);
            }
        }
    }
    r
}

/// Squares attacked by a pawn on `square` (does not depend on occupancy).
pub fn pawn(square: Square, color: Color) -> (r: Bitboard)
    ensures
        forall|t: int| #[trigger] bit(r, t) == pawn_target(color, square@, t),
{
    let dr: i8 = if color.is_white() {
        1
    } else {
        -1
    };
    let a = step_bit(square, -1, dr);
    let b = step_bit(square, 1, dr);
    let r = a | b;
    let _idx = square.index();
    proof {
        let ghost s = square@;
        assert forall|t: int| #[trigger] bit(r, t) == pawn_target(color, s, t) by {
            lemma_bit_or(a, b, t);
            if is_square(t) {
                lemma_offset_target(s, -1, dr as int, t);
                lemma_offset_target(s, 1, dr as int, t);
            }
        }
    }
    r
}


pub open spec fn valid_dir(df: int, dr: int) -> bool {
    -1 <= df <= 1 && -1 <= dr <= 1 && !(df == 0 && dr == 0)
}

/// The square index `k` steps from `s` in direction (`df`, `dr`) (ignoring the board edge).
pub open spec fn ray_square(s: int, df: int, dr: int, k: int) -> int {
    square_at(file_of(s) + steps(df, k), rank_of(s) + steps(dr, k))
}

pub open spec fn ray_on_board(s: int, df: int, dr: int, k: int) -> bool {
    on_board(file_of(s) + steps(df, k), rank_of(s) + steps(dr, k))
}

proof fn lemma_ray_point(s: int, df: int, dr: int, k: int)
    requires
        is_square(s),
        valid_dir(df, dr),
        k > 0,
        ray_on_board(s, df, dr, k),
    ensures
        on_ray(s, ray_square(s, df, dr, k), df, dr),
        dist(s, ray_square(s, df, dr, k)) == k,
{
    lemma_square_coords(s);
    lemma_coords_square(file_of(s) + steps(df, k), rank_of(s) + steps(dr, k));
}

proof fn lemma_on_ray_point(s: int, t: int, df: int, dr: int)
    requires
        is_square(s),
        valid_dir(df, dr),
        on_ray(s, t, df, dr),
    ensures
        t == ray_square(s, df, dr, dist(s, t)),
        ray_on_board(s, df, dr, dist(s, t)),
        dist(s, t) <= 7,
{
    lemma_square_coords(s);
    lemma_square_coords(t);
}

/// Walks one ray from `square`, stopping after the first occupied square.
fn ray(square: Square, occupied: Bitboard, df: i8, dr: i8) -> (r: Bitboard)
    requires
        valid_dir(df as int, dr as int),
    ensures
        forall|t: int| #[trigger]
            bit(r, t) == ray_target(square@, t, df as int, dr as int, occ(occupied)),
{
    let ghost s = square@;
    let ghost dfi = df as int;
    let ghost dri = dr as int;
    let _idx = square.index();
    let mut result: Bitboard = 0;
    let mut cursor = square;
    let ghost mut k: int = 0;
    proof {
        lemma_square_coords(s);
        assert forall|t: int| #[trigger] bit(result, t) == (on_ray(s, t, dfi, dri) && dist(s, t) <= k) by {
            lemma_bit_zero(t);
        }
    }
    loop
        invariant_except_break
            ray_on_board(s, dfi, dri, k),
            cursor@ == ray_square(s, dfi, dri, k),
            forall|t: int| #[trigger] bit(result, t) == (on_ray(s, t, dfi, dri) && dist(s, t) <= k),
            forall|u: int|
                #![trigger on_ray(s, u, dfi, dri)]
                on_ray(s, u, dfi, dri) && dist(s, u) <= k ==> !bit(occupied, u),
        invariant
            is_square(s),
            valid_dir(dfi, dri),
            dfi == df,
            dri == dr,
            0 <= k <= 7,
            s == square@,
        ensures
            forall|t: int| #[trigger]
                bit(result, t) == ray_target(s, t, dfi, dri, occ(occupied)),
        decreases 7 - k,
    {
        let ci = cursor.index();
        proof {
            lemma_square_coords(cursor@);
        }
        match cursor.offset(df, dr) {
            Some(next) => {
                let nb = next.bit();
                let old_result = result;
                result = result | nb;
                proof {
                    lemma_square_coords(s);
                    assert(ray_on_board(s, dfi, dri, k + 1));
                    assert(next@ == ray_square(s, dfi, dri, k + 1));
                    lemma_ray_point(s, dfi, dri, k + 1);
                    assert forall|t: int| #[trigger]
                        bit(result, t) == (on_ray(s, t, dfi, dri) && dist(s, t) <= k + 1) by {
                        lemma_bit_or(old_result, nb, t);
                        if on_ray(s, t, dfi, dri) {
                            lemma_on_ray_point(s, t, dfi, dri);
                        }
                    }
                }
                let hit = occupied & nb;
                if hit != 0 {
                    proof {
                        lemma_nonzero_has_bit(hit);
                        let w = choose|w: int| 0 <= w < 64 && #[trigger] bit(hit, w);
                        lemma_bit_and(occupied, nb, w);
                        assert(bit(occupied, next@));
                        assert forall|t: int| #[trigger]
                            bit(result, t) == ray_target(s, t, dfi, dri, occ(occupied)) by {
                            if on_ray(s, t, dfi, dri) {
                                lemma_on_ray_point(s, t, dfi, dri);
                                if dist(s, t) > k + 1 {
                                    assert(on_ray(s, next@, dfi, dri));
                                    assert(!ray_clear(s, t, dfi, dri, occ(occupied)));
                                } else {
                                    assert forall|u: int|
                                        #![trigger on_ray(s, u, dfi, dri)]
                                        on_ray(s, u, dfi, dri) && dist(s, u) < dist(s, t)
                                            implies !occ(occupied)(u) by {
                                    }
                                }
                            }
                        }
                    }
                    break;
                }
                proof {
                    assert forall|u: int|
                        #![trigger on_ray(s, u, dfi, dri)]
                        on_ray(s, u, dfi, dri) && dist(s, u) <= k + 1 implies !bit(occupied, u) by {
                        lemma_on_ray_point(s, u, dfi, dri);
                        if dist(s, u) == k + 1 {
                            assert(u == next@);
                            lemma_bit_and(occupied, nb, u);
                            lemma_bit_zero(u);
                        }
                    }
                    lemma_on_ray_point(s, next@, dfi, dri);
                    k = k + 1;
                }
                cursor = next;
            },
            None => {
                proof {
                    assert(!ray_on_board(s, dfi, dri, k + 1));
                    assert forall|t: int| #[trigger]
                        bit(result, t) == ray_target(s, t, dfi, dri, occ(occupied)) by {
                        if on_ray(s, t, dfi, dri) {
                            lemma_on_ray_point(s, t, dfi, dri);
                            if dist(s, t) > k {
                                lemma_square_coords(s);
                                assert(ray_on_board(s, dfi, dri, k + 1));
                            }
                            assert forall|u: int|
                                #![trigger on_ray(s, u, dfi, dri)]
                                on_ray(s, u, dfi, dri) && dist(s, u) < dist(s, t) implies !occ(
                                occupied,
                            )(u) by {}
                        }
                    }
                }
                break;
            },
        }
    }
    result
}

pub fn bishop(square: Square, occupied: Bitboard) -> (r: Bitboard)
    ensures
        forall|t: int| #[trigger] bit(r, t) == bishop_target(square@, t, occ(occupied)),
{
    let a = ray(square, occupied, 1, 1);
    let b = ray(square, occupied, -1, 1);
    let c = ray(square, occupied, 1, -1);
    let d = ray(square, occupied, -1, -1);
    let r = a | b | c | d;
    proof {
        assert forall|t: int| #[trigger] bit(r, t) == bishop_target(square@, t, occ(occupied)) by {
            lemma_bit_or(a | b | c, d, t);
            lemma_bit_or(a | b, c, t);
            lemma_bit_or(a, b, t);
        }
    }
    r
}

pub fn rook(square: Square, occupied: Bitboard) -> (r: Bitboard)
    ensures
        forall|t: int| #[trigger] bit(r, t) == rook_target(square@, t, occ(occupied)),
{
    let a = ray(square, occupied, 1, 0);
    let b = ray(square, occupied, -1, 0);
    let c = ray(square, occupied, 0, 1);
    let d = ray(square, occupied, 0, -1);
    let r = a | b | c | d;
    proof {
        assert forall|t: int| #[trigger] bit(r, t) == rook_target(square@, t, occ(occupied)) by {
            lemma_bit_or(a | b | c, d, t);
            lemma_bit_or(a | b, c, t);
            lemma_bit_or(a, b, t);
        }
    }
    r
}

pub fn queen(square: Square, occupied: Bitboard) -> (r: Bitboard)
    ensures
        forall|t: int| #[trigger] bit(r, t) == queen_target(square@, t, occ(occupied)),
{
    let a = bishop(square, occupied);
    let b = rook(square, occupied);
    let r = a | b;
    proof {
        assert forall|t: int| #[trigger] bit(r, t) == queen_target(square@, t, occ(occupied)) by {
            lemma_bit_or(a, b, t);
        }
    }
    r
}

pub proof fn lemma_pawn_target_sym(c: Color, a: int, b: int)
    ensures
        pawn_target(c.spec_opposite(), a, b) == pawn_target(c, b, a),
{
}

pub proof fn lemma_ray_target_sym(a: int, b: int, df: int, dr: int, occupied: spec_fn(int) -> bool)
    requires
        valid_dir(df, dr),
    ensures
        ray_target(a, b, df, dr, occupied) == ray_target(b, a, -df, -dr, occupied),
{
    if ray_target(a, b, df, dr, occupied) {
        lemma_ray_clear_sym(a, b, df, dr, occupied);
    }
    if ray_target(b, a, -df, -dr, occupied) {
        lemma_ray_clear_sym(b, a, -df, -dr, occupied);
    }
}

proof fn lemma_ray_clear_sym(a: int, b: int, df: int, dr: int, occupied: spec_fn(int) -> bool)
    requires
        valid_dir(df, dr),
        ray_target(a, b, df, dr, occupied),
    ensures
        ray_target(b, a, -df, -dr, occupied),
{
    let k = dist(a, b);
    lemma_on_ray_point(a, b, df, dr);
    assert(on_ray(b, a, -df, -dr));
    assert forall|u: int|
        #![trigger on_ray(b, u, -df, -dr)]
        on_ray(b, u, -df, -dr) && dist(b, u) < dist(b, a) implies !occupied(u) by {
        let j = dist(b, u);
        lemma_on_ray_point(b, u, -df, -dr);
        lemma_square_coords(a);
        lemma_square_coords(b);
        lemma_square_coords(u);
        assert(ray_on_board(a, df, dr, k - j));
        lemma_ray_point(a, df, dr, k - j);
        assert(ray_square(a, df, dr, k - j) == u);
        assert(on_ray(a, u, df, dr));
    }
}

pub proof fn lemma_bishop_target_sym(a: int, b: int, occupied: spec_fn(int) -> bool)
    ensures
        bishop_target(a, b, occupied) == bishop_target(b, a, occupied),
{
    lemma_ray_target_sym(a, b, 1, 1, occupied);
    lemma_ray_target_sym(a, b, -1, 1, occupied);
    lemma_ray_target_sym(a, b, 1, -1, occupied);
    lemma_ray_target_sym(a, b, -1, -1, occupied);
}

pub proof fn lemma_rook_target_sym(a: int, b: int, occupied: spec_fn(int) -> bool)
    ensures
        rook_target(a, b, occupied) == rook_target(b, a, occupied),
{
    lemma_ray_target_sym(a, b, 1, 0, occupied);
    lemma_ray_target_sym(a, b, -1, 0, occupied);
    lemma_ray_target_sym(a, b, 0, 1, occupied);
    lemma_ray_target_sym(a, b, 0, -1, occupied);
}
} // verus!
