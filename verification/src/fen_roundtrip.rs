//! Writing a position as FEN and reading the text back gives the position back.
use vstd::prelude::*;
use crate::bitboard::{Color, Piece, Square, square_at, rank_of, file_of, square_name};
use crate::chess_move::{Move, lemma_name_round_trip};
use crate::fen::{
    piece_of_char, read_char, read_rank, read_board, empty_board, castling_flag, read_castling,
    read_en_passant, fen_result, piece_char, count_char, rank_text, board_text, flag_text,
    castling_text, fen_text,
};
use crate::attacks::{lemma_coords_square, lemma_square_coords, pawn_dir};
use crate::bitboard::PieceKind;
use crate::movegen::{
    castle_moves, legal_seq, pawn_reaches, pawn_start_rank, pseudo_legal_seq, square_moves,
};
use crate::move_laws::{
    lemma_concat_contains, lemma_moves_between_ends, lemma_pseudo_legal_move_shape,
    lemma_safe_moves_contains, lemma_square_moves_source, lemma_target_moves_source,
};
use crate::position::{
    PositionView, capture_square, is_castling_move, is_en_passant_capture, lemma_clear_flags_small,
    rook_from, rook_to, spec_make,
};
use crate::text::{
    is_ws, ws_split, tokens, sep_split, pieces_between, is_digit, digit_value, all_digits,
    digits_value, parse_unsigned, decimal,
};

verus! {

broadcast use {Square::lemma_view_bounds, Square::lemma_from_index, Square::lemma_from_index_view};

/// No character of `s` is white space.
pub open spec fn no_ws(s: Seq<char>) -> bool {
    forall|k: int| 0 <= k < s.len() ==> !is_ws(#[trigger] s[k])
}

/// No character of `s` is `c`.
pub open spec fn lacks(s: Seq<char>, c: char) -> bool {
    forall|k: int| 0 <= k < s.len() ==> #[trigger] s[k] != c
}

// ---------------------------------------------------------------------------------------
// Splitting into fields and ranks.
// ---------------------------------------------------------------------------------------

proof fn lemma_ws_split_word(s: Seq<char>, t: Seq<char>)
    requires
        no_ws(t),
    ensures
        ws_split(s + t) == (ws_split(s).0, ws_split(s).1 + t),
    decreases t.len(),
{
    if t.len() == 0 {
        assert(s + t =~= s);
        assert(ws_split(s).1 + t =~= ws_split(s).1);
    } else {
        let t2 = t.drop_last();
        assert(no_ws(t2)) by {
            assert forall|k: int| 0 <= k < t2.len() implies !is_ws(#[trigger] t2[k]) by {
                assert(t2[k] == t[k]);
            }
        }
        lemma_ws_split_word(s, t2);
        assert((s + t).drop_last() =~= s + t2);
        assert((s + t).last() == t[t.len() - 1]);
        assert(!is_ws(t[t.len() - 1]));
        assert((ws_split(s).1 + t2).push(t.last()) =~= ws_split(s).1 + t);
    }
}

proof fn lemma_ws_split_space(s: Seq<char>)
    requires
        ws_split(s).1.len() > 0,
    ensures
        ws_split(s + seq![' ']) == (ws_split(s).0.push(ws_split(s).1), Seq::<char>::empty()),
{
    assert((s + seq![' ']).drop_last() =~= s);
    assert(is_ws(' '));
}

/// Six non-empty words without white space, joined by single spaces, split back into the
/// same six words.
proof fn lemma_six_tokens(
    f0: Seq<char>,
    f1: Seq<char>,
    f2: Seq<char>,
    f3: Seq<char>,
    f4: Seq<char>,
    f5: Seq<char>,
)
    requires
        no_ws(f0) && f0.len() > 0,
        no_ws(f1) && f1.len() > 0,
        no_ws(f2) && f2.len() > 0,
        no_ws(f3) && f3.len() > 0,
        no_ws(f4) && f4.len() > 0,
        no_ws(f5) && f5.len() > 0,
    ensures
        tokens(f0 + seq![' '] + f1 + seq![' '] + f2 + seq![' '] + f3 + seq![' '] + f4 + seq![' '] + f5)
            == seq![f0, f1, f2, f3, f4, f5],
{
    let e = Seq::<char>::empty();
    lemma_ws_split_word(e, f0);
    assert(e + f0 =~= f0);
    assert(ws_split(e) == (Seq::<Seq<char>>::empty(), e));
    assert(e + f0 =~= f0);
    let s0 = f0;
    assert(ws_split(s0) == (Seq::<Seq<char>>::empty(), f0));
    lemma_ws_split_space(s0);
    let s1 = s0 + seq![' '];
    lemma_ws_split_word(s1, f1);
    let s2 = s1 + f1;
    assert(ws_split(s2).1 =~= f1);
    lemma_ws_split_space(s2);
    let s3 = s2 + seq![' '];
    lemma_ws_split_word(s3, f2);
    let s4 = s3 + f2;
    assert(ws_split(s4).1 =~= f2);
    lemma_ws_split_space(s4);
    let s5 = s4 + seq![' '];
    lemma_ws_split_word(s5, f3);
    let s6 = s5 + f3;
    assert(ws_split(s6).1 =~= f3);
    lemma_ws_split_space(s6);
    let s7 = s6 + seq![' '];
    lemma_ws_split_word(s7, f4);
    let s8 = s7 + f4;
    assert(ws_split(s8).1 =~= f4);
    lemma_ws_split_space(s8);
    let s9 = s8 + seq![' '];
    lemma_ws_split_word(s9, f5);
    let s10 = s9 + f5;
    assert(ws_split(s10).1 =~= f5);
    assert(ws_split(s10).0 =~= seq![f0, f1, f2, f3, f4]);
    assert(tokens(s10) =~= seq![f0, f1, f2, f3, f4, f5]);
}

proof fn lemma_sep_split_word(s: Seq<char>, t: Seq<char>, sep: char)
    requires
        lacks(t, sep),
    ensures
        sep_split(s + t, sep) == (sep_split(s, sep).0, sep_split(s, sep).1 + t),
    decreases t.len(),
{
    if t.len() == 0 {
        assert(s + t =~= s);
        assert(sep_split(s, sep).1 + t =~= sep_split(s, sep).1);
    } else {
        let t2 = t.drop_last();
        assert(lacks(t2, sep)) by {
            assert forall|k: int| 0 <= k < t2.len() implies #[trigger] t2[k] != sep by {
                assert(t2[k] == t[k]);
            }
        }
        lemma_sep_split_word(s, t2, sep);
        assert((s + t).drop_last() =~= s + t2);
        assert((s + t).last() == t[t.len() - 1]);
        assert((sep_split(s, sep).1 + t2).push(t.last()) =~= sep_split(s, sep).1 + t);
    }
}

/// The rank texts, from the eighth rank down.
pub open spec fn rank_texts(board: Seq<Option<Piece>>) -> Seq<Seq<char>> {
    Seq::new(8, |i: int| rank_text(board, 7 - i, 0, 0))
}

proof fn lemma_board_text_split(board: Seq<Option<Piece>>, n: int)
    requires
        1 <= n <= 8,
    ensures
        sep_split(board_text(board, n), '/') == (rank_texts(board).take(n - 1), rank_texts(board)[n - 1]),
    decreases n,
{
    lemma_rank_text_chars(board, 8 - n, 0, 0);
    if n == 1 {
        let e = Seq::<char>::empty();
        lemma_sep_split_word(e, rank_text(board, 7, 0, 0), '/');
        assert(e + rank_text(board, 7, 0, 0) =~= rank_text(board, 7, 0, 0));
        assert(rank_texts(board).take(0) =~= Seq::<Seq<char>>::empty());
    } else {
        lemma_board_text_split(board, n - 1);
        let s = board_text(board, n - 1);
        let s1 = s + seq!['/'];
        assert(s1.drop_last() =~= s);
        lemma_sep_split_word(s1, rank_text(board, 8 - n, 0, 0), '/');
        assert(rank_texts(board).take(n - 2).push(rank_texts(board)[n - 2]) =~= rank_texts(board).take(n - 1));
        assert(Seq::<char>::empty() + rank_text(board, 8 - n, 0, 0) =~= rank_text(board, 8 - n, 0, 0));
    }
}

/// The board text splits at '/' into the eight rank texts.
proof fn lemma_board_ranks(board: Seq<Option<Piece>>)
    ensures
        pieces_between(board_text(board, 8), '/') == rank_texts(board),
{
    lemma_board_text_split(board, 8);
    assert(rank_texts(board).take(7).push(rank_texts(board)[7]) =~= rank_texts(board));
}

// ---------------------------------------------------------------------------------------
// Characters of the fields.
// ---------------------------------------------------------------------------------------

proof fn lemma_count_char(n: int)
    requires
        0 <= n <= 8,
    ensures
        no_ws(count_char(n)),
        lacks(count_char(n), '/'),
        n > 0 ==> count_char(n).len() == 1 && is_digit(count_char(n)[0]) && digit_value(count_char(n)[0]) == n,
{
}

proof fn lemma_piece_char(p: Piece)
    ensures
        !is_ws(piece_char(p)),
        piece_char(p) != '/',
        !is_digit(piece_char(p)),
        piece_of_char(piece_char(p)) == Some(p),
{
}

/// A rank text holds no white space and no '/', and is not empty.
proof fn lemma_rank_text_chars(board: Seq<Option<Piece>>, rank: int, file: int, empty: int)
    requires
        0 <= file <= 8,
        0 <= empty <= file,
    ensures
        no_ws(rank_text(board, rank, file, empty)),
        lacks(rank_text(board, rank, file, empty), '/'),
        empty > 0 || file < 8 ==> rank_text(board, rank, file, empty).len() > 0,
    decreases 8 - file,
{
    if file >= 8 {
        lemma_count_char(empty);
    } else {
        match board[square_at(file, rank)] {
            Some(p) => {
                lemma_count_char(empty);
                lemma_piece_char(p);
                lemma_rank_text_chars(board, rank, file + 1, 0);
                let t = count_char(empty) + seq![piece_char(p)] + rank_text(board, rank, file + 1, 0);
                assert forall|k: int| 0 <= k < t.len() implies !is_ws(#[trigger] t[k]) && t[k] != '/' by {
                    if k < count_char(empty).len() {
                        assert(t[k] == count_char(empty)[k]);
                    } else if k == count_char(empty).len() {
                        assert(t[k] == piece_char(p));
                    } else {
                        assert(t[k] == rank_text(board, rank, file + 1, 0)[k - count_char(empty).len() - 1]);
                    }
                }
            },
            None => {
                lemma_rank_text_chars(board, rank, file + 1, empty + 1);
            },
        }
    }
}

proof fn lemma_board_text_chars(board: Seq<Option<Piece>>, n: int)
    requires
        1 <= n <= 8,
    ensures
        no_ws(board_text(board, n)),
        board_text(board, n).len() > 0,
    decreases n,
{
    lemma_rank_text_chars(board, 8 - n, 0, 0);
    if n > 1 {
        lemma_board_text_chars(board, n - 1);
        let a = board_text(board, n - 1);
        let r = rank_text(board, 8 - n, 0, 0);
        let t = a + seq!['/'] + r;
        assert forall|k: int| 0 <= k < t.len() implies !is_ws(#[trigger] t[k]) by {
            if k < a.len() {
                assert(t[k] == a[k]);
            } else if k == a.len() {
                assert(t[k] == '/');
            } else {
                assert(t[k] == r[k - a.len() - 1]);
            }
        }
    }
}

proof fn lemma_decimal(n: nat)
    ensures
        decimal(n).len() > 0,
        all_digits(decimal(n)),
        no_ws(decimal(n)),
        digits_value(decimal(n)) == n,
        decimal(n)[0] != '+',
    decreases n,
{
    let last = ((n % 10) + '0' as int) as char;
    assert(digit_value(last) == n % 10);
    if n >= 10 {
        lemma_decimal(n / 10);
        let d = decimal(n / 10);
        let t = decimal(n);
        assert(t.drop_last() =~= d);
        assert(t.last() == last);
        assert(digits_value(t) == digits_value(d) * 10 + n % 10);
        assert(n == (n / 10) * 10 + n % 10);
        assert forall|k: int| 0 <= k < t.len() implies is_digit(#[trigger] t[k]) && !is_ws(t[k]) by {
            if k < d.len() {
                assert(t[k] == d[k]);
            }
        }
        assert(t[0] == d[0]);
    } else {
        let t = decimal(n);
        assert(t.drop_last() =~= Seq::<char>::empty());
        assert(t.last() == last);
        assert(digits_value(Seq::<char>::empty()) == 0);
        assert(digits_value(t) == n);
    }
}

proof fn lemma_decimal_parses(n: nat)
    requires
        n <= 65535,
    ensures
        parse_unsigned(decimal(n), 65535) == Some(n as int),
{
    lemma_decimal(n);
}

// ---------------------------------------------------------------------------------------
// Reading the ranks back.
// ---------------------------------------------------------------------------------------

/// Reads `row` onto `b` starting at `file`.
spec fn read_from(row: Seq<char>, fen_rank: int, file: int, b: Seq<Option<Piece>>) -> Result<(int, Seq<Option<Piece>>), Seq<char>>
    decreases row.len(),
{
    if row.len() == 0 {
        Ok((file, b))
    } else {
        match read_from(row.drop_last(), fen_rank, file, b) {
            Err(e) => Err(e),
            Ok((f2, b2)) => read_char(row.last(), fen_rank, f2, b2),
        }
    }
}

proof fn lemma_read_rank_from(row: Seq<char>, fen_rank: int, b: Seq<Option<Piece>>)
    ensures
        read_rank(row, fen_rank, b) == read_from(row, fen_rank, 0, b),
    decreases row.len(),
{
    if row.len() > 0 {
        lemma_read_rank_from(row.drop_last(), fen_rank, b);
    }
}

proof fn lemma_read_from_concat(a: Seq<char>, c: Seq<char>, fen_rank: int, file: int, b: Seq<Option<Piece>>)
    ensures
        read_from(a + c, fen_rank, file, b) == match read_from(a, fen_rank, file, b) {
            Ok((f2, b2)) => read_from(c, fen_rank, f2, b2),
            Err(e) => Err(e),
        },
    decreases c.len(),
{
    if c.len() == 0 {
        assert(a + c =~= a);
    } else {
        lemma_read_from_concat(a, c.drop_last(), fen_rank, file, b);
        assert((a + c).drop_last() =~= a + c.drop_last());
        assert((a + c).last() == c.last());
    }
}

/// `b` with the squares of `rank` taken from `board`.
spec fn fill_rank(b: Seq<Option<Piece>>, board: Seq<Option<Piece>>, rank: int) -> Seq<Option<Piece>> {
    Seq::new(64, |i: int| if rank_of(i) == rank { board[i] } else { b[i] })
}

/// Reading a rank text back onto a board whose rank is filled below `file - empty`
/// completes the rank.
proof fn lemma_read_rank_text(board: Seq<Option<Piece>>, rank: int, file: int, empty: int, b: Seq<Option<Piece>>)
    requires
        0 <= rank < 8,
        0 <= empty <= file <= 8,
        board.len() == 64,
        b.len() == 64,
        forall|j: int| 0 <= j < file - empty ==> #[trigger] b[square_at(j, rank)] == board[square_at(j, rank)],
        forall|j: int| file - empty <= j < 8 ==> #[trigger] b[square_at(j, rank)] is None,
        forall|j: int| file - empty <= j < file ==> #[trigger] board[square_at(j, rank)] is None,
    ensures
        read_from(rank_text(board, rank, file, empty), 7 - rank, file - empty, b) == Ok::<
            (int, Seq<Option<Piece>>),
            Seq<char>,
        >((8, fill_rank(b, board, rank))),
    decreases 8 - file,
{
    let fr = 7 - rank;
    if file >= 8 {
        assert forall|i: int| 0 <= i < 64 implies #[trigger] fill_rank(b, board, rank)[i] == b[i] by {
            if rank_of(i) == rank {
                let j = file_of(i);
                assert(square_at(j, rank) == i);
            }
        }
        assert(fill_rank(b, board, rank) =~= b);
        if empty > 0 {
            lemma_count_char(empty);
            let t = count_char(empty);
            reveal_with_fuel(read_from, 2);
            assert(t.drop_last() =~= Seq::<char>::empty());
            assert(t.last() == t[0]);
        } else {
            assert(count_char(empty) =~= Seq::<char>::empty());
        }
    } else {
        match board[square_at(file, rank)] {
            Some(p) => {
                let t1 = count_char(empty);
                let t2 = seq![piece_char(p)];
                let rest = rank_text(board, rank, file + 1, 0);
                lemma_count_char(empty);
                lemma_piece_char(p);
                // The empty-square count brings the file to `file`.
                assert(read_from(t1, fr, file - empty, b) == Ok::<(int, Seq<Option<Piece>>), Seq<char>>((file, b))) by {
                    if empty > 0 {
                        reveal_with_fuel(read_from, 2);
                        assert(t1.drop_last() =~= Seq::<char>::empty());
                        assert(t1.last() == t1[0]);
                    } else {
                        assert(t1 =~= Seq::<char>::empty());
                    }
                }
                let b2 = b.update(square_at(file, rank), Some(p));
                assert(read_from(t2, fr, file, b) == Ok::<(int, Seq<Option<Piece>>), Seq<char>>((file + 1, b2))) by {
                    reveal_with_fuel(read_from, 2);
                    assert(t2.drop_last() =~= Seq::<char>::empty());
                    assert(t2.last() == piece_char(p));
                    assert(square_at(file, 7 - fr) == square_at(file, rank));
                }
                lemma_read_from_concat(t1, t2, fr, file - empty, b);
                lemma_read_from_concat(t1 + t2, rest, fr, file - empty, b);
                assert forall|j: int| 0 <= j < file + 1 implies #[trigger] b2[square_at(j, rank)] == board[square_at(j, rank)] by {
                    if j == file {
                    } else {
                        assert(square_at(j, rank) != square_at(file, rank));
                    }
                }
                assert forall|j: int| file + 1 <= j < 8 implies #[trigger] b2[square_at(j, rank)] is None by {
                    assert(square_at(j, rank) != square_at(file, rank));
                }
                lemma_read_rank_text(board, rank, file + 1, 0, b2);
                assert(fill_rank(b2, board, rank) =~= fill_rank(b, board, rank));
                assert(rank_text(board, rank, file, empty) == t1 + t2 + rest);
            },
            None => {
                lemma_read_rank_text(board, rank, file + 1, empty + 1, b);
            },
        }
    }
}

/// The board with only its top `n` ranks.
spec fn top_ranks(board: Seq<Option<Piece>>, n: int) -> Seq<Option<Piece>> {
    Seq::new(64, |i: int| if rank_of(i) >= 8 - n { board[i] } else { None })
}

proof fn lemma_read_board_ranks(board: Seq<Option<Piece>>, n: int)
    requires
        board.len() == 64,
        0 <= n <= 8,
    ensures
        read_board(rank_texts(board), n) == Ok::<Seq<Option<Piece>>, Seq<char>>(top_ranks(board, n)),
    decreases n,
{
    if n == 0 {
        assert(top_ranks(board, 0) =~= empty_board());
    } else {
        lemma_read_board_ranks(board, n - 1);
        let rank = 8 - n;
        let b = top_ranks(board, n - 1);
        assert forall|j: int| 0 <= j < 8 implies #[trigger] b[square_at(j, rank)] is None by {
            assert(rank_of(square_at(j, rank)) == rank);
        }
        lemma_read_rank_from(rank_texts(board)[n - 1], n - 1, b);
        assert(rank_texts(board)[n - 1] == rank_text(board, rank, 0, 0));
        lemma_read_rank_text(board, rank, 0, 0, b);
        assert(fill_rank(b, board, rank) =~= top_ranks(board, n));
    }
}

// ---------------------------------------------------------------------------------------
// Castling rights.
// ---------------------------------------------------------------------------------------

proof fn lemma_read_castling_push(s: Seq<char>, c: char)
    ensures
        read_castling(s.push(c)) == match read_castling(s) {
            Err(e) => Err(e),
            Ok(acc) => match castling_flag(c) {
                None => Err("invalid castling rights"@),
                Some(f) => if acc & f != 0 {
                    Err("duplicate castling right"@)
                } else {
                    Ok(acc | f)
                },
            },
        },
{
    assert(s.push(c).drop_last() =~= s);
}

proof fn lemma_castling_bits(c: u8)
    requires
        c < 16,
    ensures
        (c & 1u8) == 0 || (c & 1u8) == 1,
        (c & 2u8) == 0 || (c & 2u8) == 2,
        (c & 4u8) == 0 || (c & 4u8) == 4,
        (c & 8u8) == 0 || (c & 8u8) == 8,
        ((c & 1u8) & 2u8) == 0,
        (((c & 1u8) | (c & 2u8)) & 4u8) == 0,
        ((((c & 1u8) | (c & 2u8)) | (c & 4u8)) & 8u8) == 0,
        (((c & 1u8) | (c & 2u8)) | (c & 4u8)) | (c & 8u8) == c,
        (c & 1u8) | 0u8 == (c & 1u8),
        0u8 | (c & 2u8) == (c & 2u8),
        c == 0 <==> ((c & 1u8) == 0 && (c & 2u8) == 0 && (c & 4u8) == 0 && (c & 8u8) == 0),
{
    assert((c & 1u8) == 0 || (c & 1u8) == 1) by (bit_vector);
    assert((c & 2u8) == 0 || (c & 2u8) == 2) by (bit_vector);
    assert((c & 4u8) == 0 || (c & 4u8) == 4) by (bit_vector);
    assert((c & 8u8) == 0 || (c & 8u8) == 8) by (bit_vector);
    assert(((c & 1u8) & 2u8) == 0) by (bit_vector);
    assert((((c & 1u8) | (c & 2u8)) & 4u8) == 0) by (bit_vector);
    assert(((((c & 1u8) | (c & 2u8)) | (c & 4u8)) & 8u8) == 0) by (bit_vector);
    assert((((c & 1u8) | (c & 2u8)) | (c & 4u8)) | (c & 8u8) == c) by (bit_vector)
        requires
            c < 16,
    ;
    assert((c & 1u8) | 0u8 == (c & 1u8)) by (bit_vector);
    assert(0u8 | (c & 2u8) == (c & 2u8)) by (bit_vector);
    assert(c == 0 <==> ((c & 1u8) == 0 && (c & 2u8) == 0 && (c & 4u8) == 0 && (c & 8u8) == 0)) by (bit_vector)
        requires
            c < 16,
    ;
}

/// Reading the flags written so far gives the rights they stand for.
proof fn lemma_read_flag(s: Seq<char>, acc: u8, c: u8, flag: u8, ch: char)
    requires
        read_castling(s) == Ok::<u8, Seq<char>>(acc),
        castling_flag(ch) == Some(flag),
        (c & flag) == 0 || (c & flag) == flag,
        (acc & (c & flag)) == 0,
        (acc & flag) == 0,
    ensures
        read_castling(s + flag_text(c, flag, ch)) == Ok::<u8, Seq<char>>(acc | (c & flag)),
{
    if (c & flag) != 0 {
        assert(s + flag_text(c, flag, ch) =~= s.push(ch));
        lemma_read_castling_push(s, ch);
        assert((c & flag) == flag);
    } else {
        assert(s + flag_text(c, flag, ch) =~= s);
        assert(acc | 0u8 == acc) by (bit_vector);
    }
}

proof fn lemma_castling_round_trip(c: u8)
    requires
        c < 16,
    ensures
        (if castling_text(c) == seq!['-'] {
            Ok(0u8)
        } else {
            read_castling(castling_text(c))
        }) == Ok::<u8, Seq<char>>(c),
        no_ws(castling_text(c)),
        castling_text(c).len() > 0,
{
    lemma_castling_bits(c);
    let a1 = c & 1u8;
    let a2 = c & 2u8;
    let a4 = c & 4u8;
    let a8 = c & 8u8;
    let e = Seq::<char>::empty();
    assert(read_castling(e) == Ok::<u8, Seq<char>>(0u8));
    assert((0u8 & a1) == 0) by (bit_vector);
    assert((0u8 & 1u8) == 0) by (bit_vector);
    assert(0u8 | a1 == a1) by (bit_vector);
    lemma_read_flag(e, 0u8, c, 1u8, 'K');
    let s1 = e + flag_text(c, 1u8, 'K');
    assert((a1 & a2) == 0 && (a1 & 2u8) == 0) by (bit_vector)
        requires
            a1 == c & 1u8,
            a2 == c & 2u8,
    ;
    lemma_read_flag(s1, a1, c, 2u8, 'Q');
    let s2 = s1 + flag_text(c, 2u8, 'Q');
    assert(((a1 | a2) & a4) == 0 && ((a1 | a2) & 4u8) == 0) by (bit_vector)
        requires
            a1 == c & 1u8,
            a2 == c & 2u8,
            a4 == c & 4u8,
    ;
    lemma_read_flag(s2, a1 | a2, c, 4u8, 'k');
    let s3 = s2 + flag_text(c, 4u8, 'k');
    assert((((a1 | a2) | a4) & a8) == 0 && (((a1 | a2) | a4) & 8u8) == 0) by (bit_vector)
        requires
            a1 == c & 1u8,
            a2 == c & 2u8,
            a4 == c & 4u8,
            a8 == c & 8u8,
    ;
    lemma_read_flag(s3, (a1 | a2) | a4, c, 8u8, 'q');
    let s4 = s3 + flag_text(c, 8u8, 'q');
    let text = flag_text(c, 1, 'K') + flag_text(c, 2, 'Q') + flag_text(c, 4, 'k') + flag_text(c, 8, 'q');
    assert(e + flag_text(c, 1u8, 'K') =~= flag_text(c, 1u8, 'K'));
    assert(s4 =~= text);
    assert forall|k: int| 0 <= k < text.len() implies !is_ws(#[trigger] text[k]) && text[k] != '-' by {
        let l1 = flag_text(c, 1, 'K').len();
        let l2 = flag_text(c, 2, 'Q').len();
        let l4 = flag_text(c, 4, 'k').len();
        if k < l1 {
            assert(text[k] == 'K');
        } else if k < l1 + l2 {
            assert(text[k] == 'Q');
        } else if k < l1 + l2 + l4 {
            assert(text[k] == 'k');
        } else {
            assert(text[k] == 'q');
        }
    }
    if c == 0 {
        assert(text =~= Seq::<char>::empty());
    } else {
        assert(text.len() > 0);
        assert(text[0] != '-');
    }
}

// ---------------------------------------------------------------------------------------
// The law.
// ---------------------------------------------------------------------------------------

/// The positions whose FEN the parser accepts: a board of 64 squares, castling rights among
/// the four flags, an en-passant square on the rank the side to move would capture onto, and
/// a positive fullmove number.
pub open spec fn fen_writable(v: PositionView) -> bool {
    &&& v.board.len() == 64
    &&& v.castling < 16
    &&& match v.en_passant {
        Some(sq) => 0 <= sq@ < 64 && rank_of(sq@) == (if v.side == Color::White {
            5int
        } else {
            2int
        }),
        None => true,
    }
    &&& v.fullmove >= 1
}

/// Writing a position as FEN and parsing the text gives the same position back.
pub proof fn lemma_fen_round_trip(v: PositionView)
    requires
        fen_writable(v),
    ensures
        fen_result(fen_text(v)) == Ok::<PositionView, Seq<char>>(v),
{
    let b = board_text(v.board, 8);
    let side = if v.side == Color::White {
        seq!['w']
    } else {
        seq!['b']
    };
    let c = castling_text(v.castling);
    let e = match v.en_passant {
        Some(s) => square_name(s@),
        None => seq!['-'],
    };
    let h = decimal(v.halfmove as nat);
    let f = decimal(v.fullmove as nat);
    lemma_board_text_chars(v.board, 8);
    lemma_castling_round_trip(v.castling);
    lemma_decimal(v.halfmove as nat);
    lemma_decimal(v.fullmove as nat);
    lemma_decimal_parses(v.halfmove as nat);
    lemma_decimal_parses(v.fullmove as nat);
    assert(no_ws(side));
    assert(no_ws(e)) by {
        match v.en_passant {
            Some(s) => {
                assert forall|k: int| 0 <= k < e.len() implies !is_ws(#[trigger] e[k]) by {
                }
            },
            None => {},
        }
    }
    lemma_six_tokens(b, side, c, e, h, f);
    assert(fen_text(v) == b + seq![' '] + side + seq![' '] + c + seq![' '] + e + seq![' '] + h + seq![' '] + f);
    let fields = tokens(fen_text(v));
    assert(fields == seq![b, side, c, e, h, f]);
    lemma_board_ranks(v.board);
    lemma_read_board_ranks(v.board, 8);
    assert(top_ranks(v.board, 8) =~= v.board);
    match v.en_passant {
        Some(s) => {
            lemma_name_round_trip(s);
            assert(e != seq!['-']);
        },
        None => {},
    }
    assert(read_en_passant(e, v.side) == Ok::<Option<Square>, Seq<char>>(v.en_passant));
    assert(fields.len() == 6);
    assert(fields[0] == b);
    assert(pieces_between(fields[0], '/').len() == 8);
    assert(read_board(pieces_between(fields[0], '/'), 8) == Ok::<Seq<Option<Piece>>, Seq<char>>(v.board));
    assert(fields[1] == side);
    assert(seq!['b'] != seq!['w']) by {
        assert(seq!['b'][0] != seq!['w'][0]);
    }
    assert(fields[2] == c);
    assert(fields[3] == e);
    assert(fields[4] == h);
    assert(fields[5] == f);
    assert(parse_unsigned(fields[4], 65535) == Some(v.halfmove as int));
    assert(parse_unsigned(fields[5], 65535) == Some(v.fullmove as int));
}


// ---------------------------------------------------------------------------------------
// The positions the library builds can be written.
// ---------------------------------------------------------------------------------------

proof fn lemma_read_rank_keeps_length(row: Seq<char>, fen_rank: int, b: Seq<Option<Piece>>)
    requires
        0 <= fen_rank < 8,
        b.len() == 64,
        read_rank(row, fen_rank, b) is Ok,
    ensures
        read_rank(row, fen_rank, b)->Ok_0.0 >= 0,
        read_rank(row, fen_rank, b)->Ok_0.1.len() == 64,
    decreases row.len(),
{
    if row.len() > 0 {
        lemma_read_rank_keeps_length(row.drop_last(), fen_rank, b);
        let prev = read_rank(row.drop_last(), fen_rank, b)->Ok_0;
        if !is_digit(row.last()) && prev.0 < 8 {
            lemma_coords_square(prev.0, 7 - fen_rank);
        }
    }
}

proof fn lemma_read_board_length(ranks: Seq<Seq<char>>, n: int)
    requires
        0 <= n <= 8,
        read_board(ranks, n) is Ok,
    ensures
        read_board(ranks, n)->Ok_0.len() == 64,
    decreases n,
{
    if n > 0 {
        lemma_read_board_length(ranks, n - 1);
        lemma_read_rank_keeps_length(ranks[n - 1], n - 1, read_board(ranks, n - 1)->Ok_0);
    }
}

proof fn lemma_read_castling_small(s: Seq<char>)
    requires
        read_castling(s) is Ok,
    ensures
        read_castling(s)->Ok_0 < 16,
    decreases s.len(),
{
    if s.len() > 0 {
        lemma_read_castling_small(s.drop_last());
        let c = read_castling(s.drop_last())->Ok_0;
        let f = castling_flag(s.last())->0;
        assert(c | f < 16) by (bit_vector)
            requires
                c < 16,
                f == 1 || f == 2 || f == 4 || f == 8,
        ;
    }
}

proof fn lemma_digits_value_nonnegative(s: Seq<char>)
    requires
        all_digits(s),
    ensures
        digits_value(s) >= 0,
    decreases s.len(),
{
    if s.len() > 0 {
        assert(all_digits(s.drop_last()));
        lemma_digits_value_nonnegative(s.drop_last());
        assert(is_digit(s[s.len() - 1]));
    }
}

/// Every position `from_fen` accepts can be written as FEN (so it reads back as itself).
pub proof fn lemma_parsed_position_writable(s: Seq<char>)
    requires
        fen_result(s) is Ok,
    ensures
        fen_writable(fen_result(s)->Ok_0),
{
    let f = tokens(s);
    let ranks = pieces_between(f[0], '/');
    lemma_read_board_length(ranks, 8);
    if f[2] != seq!['-'] {
        lemma_read_castling_small(f[2]);
    }
    let fm_body = if f[5].len() > 0 && f[5][0] == '+' {
        f[5].skip(1)
    } else {
        f[5]
    };
    lemma_digits_value_nonnegative(fm_body);
    let side = if f[1] == seq!['w'] {
        Color::White
    } else {
        Color::Black
    };
    match read_en_passant(f[3], side) {
        Ok(Some(sq)) => {
            let t = f[3];
            lemma_coords_square(t[0] as int - 'a' as int, t[1] as int - '1' as int);
        },
        _ => {},
    }
}

/// Playing a legal move keeps a position writable as FEN.
pub proof fn lemma_legal_move_keeps_writable(v: PositionView, m: Move)
    requires
        fen_writable(v),
        legal_seq(v).contains(m),
    ensures
        fen_writable(spec_make(v, m)),
{
    lemma_safe_moves_contains(v, pseudo_legal_seq(v), m);
    lemma_pseudo_legal_move_shape(v, m);
    let us = v.side;
    let moved = v.board[m.from@]->0;
    let after = spec_make(v, m);
    // The board keeps its 64 squares.
    let cap = capture_square(v, moved, m);
    if is_en_passant_capture(v, moved, m) {
        let t = v.en_passant->0;
        lemma_square_coords(t@);
        lemma_coords_square(t@ % 8, t@ / 8 - pawn_dir(moved.color));
    }
    assert(0 <= cap < 64);
    if is_castling_move(moved, m) {
        lemma_square_coords(m.from@);
        lemma_coords_square(7, rank_of(m.from@));
        lemma_coords_square(5, rank_of(m.from@));
        lemma_coords_square(0, rank_of(m.from@));
        lemma_coords_square(3, rank_of(m.from@));
        assert(0 <= rook_from(m) < 64 && 0 <= rook_to(m) < 64);
    }
    assert(after.board.len() == 64);
    // The castling rights stay below 16.
    let c = v.castling;
    let c1 = if moved.kind == PieceKind::King {
        if moved.color == Color::White {
            c & !(1u8 | 2u8)
        } else {
            c & !(4u8 | 8u8)
        }
    } else {
        c
    };
    lemma_clear_flags_small(c, 1u8 | 2u8);
    lemma_clear_flags_small(c, 4u8 | 8u8);
    assert(c1 < 16);
    let c2 = if m.from@ == 0 || m.to@ == 0 { c1 & !2u8 } else { c1 };
    lemma_clear_flags_small(c1, 2u8);
    let c3 = if m.from@ == 7 || m.to@ == 7 { c2 & !1u8 } else { c2 };
    lemma_clear_flags_small(c2, 1u8);
    let c4 = if m.from@ == 56 || m.to@ == 56 { c3 & !8u8 } else { c3 };
    lemma_clear_flags_small(c3, 8u8);
    lemma_clear_flags_small(c4, 4u8);
    assert(after.castling < 16);
    // A double step leaves its en-passant square on the rank the other side needs.
    if moved.kind == PieceKind::Pawn && abs_int(rank_of(m.from@) - rank_of(m.to@)) == 2 {
        lemma_concat_contains(square_moves(v, 64), castle_moves(v), m);
        assert(square_moves(v, 64).contains(m)) by {
            if castle_moves(v).contains(m) {
                assert(m.promotion is None);
            }
        }
        let from = lemma_square_moves_source(v, 64, m);
        let to = lemma_target_moves_source(v, from, 64, m);
        lemma_moves_between_ends(v, from, to, m);
        assert(from == m.from@ && to == m.to@);
        assert(pawn_reaches(v, us, from, to));
        lemma_square_coords(from);
        let d = pawn_dir(us);
        lemma_coords_square(from % 8, from / 8 + d);
        lemma_coords_square(from % 8, from / 8 + 2 * d);
        assert(rank_of(from) == pawn_start_rank(us));
        assert(after.en_passant == Square::spec_offset(m.from, 0, pawn_dir(moved.color)));
    }
}

spec fn abs_int(x: int) -> int {
    if x < 0 {
        -x
    } else {
        x
    }
}

} // verus!
