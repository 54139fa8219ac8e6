//! FEN parsing and serialization.
use vstd::prelude::*;
use crate::bitboard::{Color, Piece, PieceKind, Square, square_at, rank_of, file_of, square_named, square_name};
use crate::position::{Position, PositionView};
use crate::text::{
    push_char, push_decimal, decimal,
    chars_of, split_tokens, split_at_char, tokens, pieces_between, views, is_digit, digit_value,
    parse_unsigned, parse_number,
};

verus! {

broadcast use {Square::lemma_view_bounds, Square::lemma_from_index, Square::lemma_from_index_view, Position::lemma_wf_view};

/// The piece a FEN letter stands for (upper case White, lower case Black).
pub open spec fn piece_of_char(c: char) -> Option<Piece> {
    let color = if 'A' <= c <= 'Z' { Color::White } else { Color::Black };
    let lower = if 'A' <= c <= 'Z' { ((c as int) + 32) as char } else { c };
    if lower == 'p' {
        Some(Piece { color, kind: PieceKind::Pawn })
    } else if lower == 'n' {
        Some(Piece { color, kind: PieceKind::Knight })
    } else if lower == 'b' {
        Some(Piece { color, kind: PieceKind::Bishop })
    } else if lower == 'r' {
        Some(Piece { color, kind: PieceKind::Rook })
    } else if lower == 'q' {
        Some(Piece { color, kind: PieceKind::Queen })
    } else if lower == 'k' {
        Some(Piece { color, kind: PieceKind::King })
    } else {
        None
    }
}

/// Reads one character of a FEN rank: the file reached and the board, or an error message.
pub open spec fn read_char(c: char, fen_rank: int, file: int, b: Seq<Option<Piece>>) -> Result<(int, Seq<Option<Piece>>), Seq<char>> {
    if is_digit(c) {
        let n = digit_value(c);
        if n == 0 || n > 8 {
            Err("invalid empty-square count"@)
        } else if file + n > 255 {
            Err("rank overflow"@)
        } else {
            Ok((file + n, b))
        }
    } else {
        match piece_of_char(c) {
            None => Err("invalid FEN piece"@),
            Some(p) => if file >= 8 {
                Err("rank has too many squares"@)
            } else {
                Ok((file + 1, b.update(square_at(file, 7 - fen_rank), Some(p))))
            },
        }
    }
}

/// Reads the FEN rank `row` (the `fen_rank`-th, counting from the eighth rank) onto `board`.
pub open spec fn read_rank(row: Seq<char>, fen_rank: int, board: Seq<Option<Piece>>) -> Result<(int, Seq<Option<Piece>>), Seq<char>>
    decreases row.len(),
{
    if row.len() == 0 {
        Ok((0, board))
    } else {
        match read_rank(row.drop_last(), fen_rank, board) {
            Err(e) => Err(e),
            Ok((file, b)) => read_char(row.last(), fen_rank, file, b),
        }
    }
}

pub open spec fn empty_board() -> Seq<Option<Piece>> {
    Seq::new(64, |i: int| None::<Piece>)
}

/// Reads the first `n` FEN ranks onto an empty board.
pub open spec fn read_board(ranks: Seq<Seq<char>>, n: int) -> Result<Seq<Option<Piece>>, Seq<char>>
    decreases n,
{
    if n <= 0 {
        Ok(empty_board())
    } else {
        match read_board(ranks, n - 1) {
            Err(e) => Err(e),
            Ok(b) => match read_rank(ranks[n - 1], n - 1, b) {
                Err(e) => Err(e),
                Ok((file, b2)) => if file != 8 {
                    Err("rank does not contain eight squares"@)
                } else {
                    Ok(b2)
                },
            },
        }
    }
}

/// The castling flag a FEN letter stands for.
pub open spec fn castling_flag(c: char) -> Option<u8> {
    if c == 'K' {
        Some(1u8)
    } else if c == 'Q' {
        Some(2u8)
    } else if c == 'k' {
        Some(4u8)
    } else if c == 'q' {
        Some(8u8)
    } else {
        None
    }
}

/// Reads a castling field other than "-": each of K, Q, k, q at most once, a letter seen
/// twice being refused as a duplicate. The field stands for a set of rights, so the letters may
/// come in any order (`qK` gives the same rights as `Kq`); writing a position always spells
/// them in the order K, Q, k, q.
pub open spec fn read_castling(s: Seq<char>) -> Result<u8, Seq<char>>
    decreases s.len(),
{
    if s.len() == 0 {
        Ok(0u8)
    } else {
        match read_castling(s.drop_last()) {
            Err(e) => Err(e),
            Ok(c) => match castling_flag(s.last()) {
                None => Err("invalid castling rights"@),
                Some(f) => if c & f != 0 {
                    Err("duplicate castling right"@)
                } else {
                    Ok(c | f)
                },
            },
        }
    }
}

/// Reads the en-passant field: "-" or a square on the sixth rank (White to move) or third rank (Black).
pub open spec fn read_en_passant(t: Seq<char>, side: Color) -> Result<Option<Square>, Seq<char>> {
    if t == seq!['-'] {
        Ok(None)
    } else {
        match square_named(t) {
            None => Err("invalid en-passant square"@),
            Some(sq) => if rank_of(sq@) != (if side == Color::White { 5int } else { 2int }) {
                Err("en-passant square is on the wrong rank for the active color"@)
            } else {
                Ok(Some(sq))
            },
        }
    }
}

/// The position a FEN string describes, or the message of the first problem found.
pub open spec fn fen_result(s: Seq<char>) -> Result<PositionView, Seq<char>> {
    let f = tokens(s);
    if f.len() != 6 {
        Err("FEN must contain six fields"@)
    } else if pieces_between(f[0], '/').len() != 8 {
        Err("FEN board must contain eight ranks"@)
    } else {
        match read_board(pieces_between(f[0], '/'), 8) {
            Err(e) => Err(e),
            Ok(board) => if f[1] != seq!['w'] && f[1] != seq!['b'] {
                Err("invalid active color"@)
            } else {
                let side = if f[1] == seq!['w'] { Color::White } else { Color::Black };
                match (if f[2] == seq!['-'] { Ok(0u8) } else { read_castling(f[2]) }) {
                    Err(e) => Err(e),
                    Ok(castling) => match read_en_passant(f[3], side) {
                        Err(e) => Err(e),
                        Ok(en_passant) => match parse_unsigned(f[4], 65535) {
                            None => Err("invalid halfmove clock"@),
                            Some(hm) => match parse_unsigned(f[5], 65535) {
                                None => Err("invalid fullmove number"@),
                                Some(fm) => if fm == 0 {
                                    Err("fullmove number must be positive"@)
                                } else {
                                    Ok(PositionView {
                                        board,
                                        side,
                                        castling,
                                        en_passant,
                                        halfmove: hm as u16,
                                        fullmove: fm as u16,
                                    })
                                },
                            },
                        },
                    },
                }
            },
        }
    }
}

fn message(s: &str) -> (r: String)
    ensures
        r@ == s@,
{
    s.to_owned()
}

fn piece_from_char(c: char) -> (r: Option<Piece>)
    ensures
        r == piece_of_char(c),
{
    let upper = 'A' <= c && c <= 'Z';
    let color = if upper { Color::White } else { Color::Black };
    let lower = if upper { ((c as u32) + 32) as u8 as char } else { c };
    let kind = if lower == 'p' {
        PieceKind::Pawn
    } else if lower == 'n' {
        PieceKind::Knight
    } else if lower == 'b' {
        PieceKind::Bishop
    } else if lower == 'r' {
        PieceKind::Rook
    } else if lower == 'q' {
        PieceKind::Queen
    } else if lower == 'k' {
        PieceKind::King
    } else {
        return None;
    };
    Some(Piece { color, kind })
}

/// Reads FEN rank `row` onto the board of `p`, returning the file reached.
fn read_rank_into(p: &mut Position, row: &Vec<char>, fen_rank: u8) -> (r: Result<u8, String>)
    requires
        old(p).wf(),
        fen_rank < 8,
    ensures
        final(p).wf(),
        match r {
            Ok(file) => read_rank(row@, fen_rank as int, old(p)@.board) == Ok::<(int, Seq<Option<Piece>>), Seq<char>>((file as int, final(p)@.board)),
            Err(e) => read_rank(row@, fen_rank as int, old(p)@.board) == Err::<(int, Seq<Option<Piece>>), Seq<char>>(e@),
        },
        final(p)@.side == old(p)@.side,
        final(p)@.castling == old(p)@.castling,
        final(p)@.en_passant == old(p)@.en_passant,
        final(p)@.halfmove == old(p)@.halfmove,
        final(p)@.fullmove == old(p)@.fullmove,
{
    let ghost b0 = p@.board;
    let ghost v0 = p@;
    let mut file: u8 = 0;
    let mut i: usize = 0;
    while i < row.len()
        invariant
            0 <= i <= row@.len(),
            p.wf(),
            fen_rank < 8,
            read_rank(row@.take(i as int), fen_rank as int, b0) == Ok::<(int, Seq<Option<Piece>>), Seq<char>>((file as int, p@.board)),
            p@.side == v0.side,
            p@.castling == v0.castling,
            p@.en_passant == v0.en_passant,
            p@.halfmove == v0.halfmove,
            p@.fullmove == v0.fullmove,
            b0 == old(p)@.board,
            v0 == old(p)@,
        decreases row@.len() - i,
    {
        let ch = row[i];
        proof {
            assert(row@.take(i + 1).drop_last() =~= row@.take(i as int));
            assert(row@.take(i + 1).last() == ch);
        }
        if '0' <= ch && ch <= '9' {
            let n = ((ch as u32) - ('0' as u32)) as u8;
            if n == 0 || n > 8 {
                proof {
                    lemma_read_rank_err_stays(row@, fen_rank as int, b0, i + 1);
                }
                return Err(message("invalid empty-square count"));
            }
            match file.checked_add(n) {
                Some(f) => {
                    file = f;
                },
                None => {
                    proof {
                    lemma_read_rank_err_stays(row@, fen_rank as int, b0, i + 1);
                }
                return Err(message("rank overflow"));
                },
            }
        } else {
            match piece_from_char(ch) {
                None => {
                    proof {
                    lemma_read_rank_err_stays(row@, fen_rank as int, b0, i + 1);
                }
                return Err(message("invalid FEN piece"));
                },
                Some(piece) => {
                    if file >= 8 {
                        proof {
                    lemma_read_rank_err_stays(row@, fen_rank as int, b0, i + 1);
                }
                return Err(message("rank has too many squares"));
                    }
                    let sq = Square::from_coords(file, 7 - fen_rank).unwrap();
                    p.set_piece(sq, Some(piece));
                    file = file + 1;
                },
            }
        }
        i = i + 1;
    }
    proof {
        assert(row@.take(i as int) =~= row@);
    }
    Ok(file)
}

/// Once reading a prefix of a rank fails, reading the whole rank fails the same way.
proof fn lemma_read_rank_err_stays(row: Seq<char>, fen_rank: int, b: Seq<Option<Piece>>, i: int)
    requires
        0 <= i <= row.len(),
        read_rank(row.take(i), fen_rank, b) is Err,
    ensures
        read_rank(row, fen_rank, b) == read_rank(row.take(i), fen_rank, b),
    decreases row.len() - i,
{
    if i < row.len() {
        assert(row.take(i + 1).drop_last() =~= row.take(i));
        lemma_read_rank_err_stays(row, fen_rank, b, i + 1);
    } else {
        assert(row.take(i) =~= row);
    }
}


proof fn lemma_read_castling_err_stays(s: Seq<char>, i: int)
    requires
        0 <= i <= s.len(),
        read_castling(s.take(i)) is Err,
    ensures
        read_castling(s) == read_castling(s.take(i)),
    decreases s.len() - i,
{
    if i < s.len() {
        assert(s.take(i + 1).drop_last() =~= s.take(i));
        lemma_read_castling_err_stays(s, i + 1);
    } else {
        assert(s.take(i) =~= s);
    }
}

fn read_castling_field(t: &Vec<char>) -> (r: Result<u8, String>)
    ensures
        match r {
            Ok(c) => read_castling(t@) == Ok::<u8, Seq<char>>(c) && c < 16,
            Err(e) => read_castling(t@) == Err::<u8, Seq<char>>(e@),
        },
{
    let mut c: u8 = 0;
    let mut i: usize = 0;
    while i < t.len()
        invariant
            0 <= i <= t@.len(),
            read_castling(t@.take(i as int)) == Ok::<u8, Seq<char>>(c),
            c < 16,
        decreases t@.len() - i,
    {
        let ch = t[i];
        proof {
            assert(t@.take(i + 1).drop_last() =~= t@.take(i as int));
            assert(t@.take(i + 1).last() == ch);
        }
        let flag: u8 = if ch == 'K' {
            1
        } else if ch == 'Q' {
            2
        } else if ch == 'k' {
            4
        } else if ch == 'q' {
            8
        } else {
            proof {
                lemma_read_castling_err_stays(t@, i + 1);
            }
            return Err(message("invalid castling rights"));
        };
        if c & flag != 0 {
            proof {
                lemma_read_castling_err_stays(t@, i + 1);
            }
            return Err(message("duplicate castling right"));
        }
        proof {
            assert(c | flag < 16) by (bit_vector)
                requires
                    c < 16,
                    flag == 1 || flag == 2 || flag == 4 || flag == 8,
            ;
        }
        c = c | flag;
        i = i + 1;
    }
    proof {
        assert(t@.take(i as int) =~= t@);
    }
    Ok(c)
}

proof fn lemma_read_board_step(ranks: Seq<Seq<char>>, n: int, b: Seq<Option<Piece>>)
    requires
        n >= 1,
        read_board(ranks, n - 1) == Ok::<Seq<Option<Piece>>, Seq<char>>(b),
    ensures
        read_board(ranks, n) == match read_rank(ranks[n - 1], n - 1, b) {
            Err(e) => Err(e),
            Ok((file, b2)) => if file != 8 {
                Err("rank does not contain eight squares"@)
            } else {
                Ok(b2)
            },
        },
{
}

proof fn lemma_read_board_err_stays(ranks: Seq<Seq<char>>, n: int, m: int)
    requires
        0 <= n <= m,
        read_board(ranks, n) is Err,
    ensures
        read_board(ranks, m) == read_board(ranks, n),
    decreases m - n,
{
    if n < m {
        lemma_read_board_err_stays(ranks, n, m - 1);
    }
}

fn is_single(t: &Vec<char>, c: char) -> (r: bool)
    ensures
        r == (t@ == seq![c]),
{
    let r = t.len() == 1 && t[0] == c;
    proof {
        if t@.len() == 1 && t@[0] == c {
            assert(t@ =~= seq![c]);
        }
    }
    r
}

impl Position {
    /// Parses a FEN string: checks the six fields, the piece placement syntax, the active color,
    /// the castling field (each right at most once), the rank of the en-passant square and the
    /// counters; it does not check that the position could arise in a game.
    pub fn from_fen(fen: &str) -> (r: Result<Position, String>)
        ensures
            match r {
                Ok(p) => p.wf() && fen_result(fen@) == Ok::<PositionView, Seq<char>>(p@),
                Err(e) => fen_result(fen@) == Err::<PositionView, Seq<char>>(e@),
            },
    {
        let cs = chars_of(fen);
        let fields = split_tokens(&cs);
        let ghost f = tokens(fen@);
        proof {
            assert(views(fields@) == f);
        }
        if fields.len() != 6 {
            return Err(message("FEN must contain six fields"));
        }
        proof {
            assert(fields@[0]@ == f[0]);
            assert(fields@[1]@ == f[1]);
            assert(fields@[2]@ == f[2]);
            assert(fields@[3]@ == f[3]);
            assert(fields@[4]@ == f[4]);
            assert(fields@[5]@ == f[5]);
        }
        let ranks = split_at_char(&fields[0], '/');
        let ghost rs = pieces_between(f[0], '/');
        proof {
            assert(views(ranks@) == rs);
        }
        if ranks.len() != 8 {
            return Err(message("FEN board must contain eight ranks"));
        }
        let mut p = Position::empty();
        proof {
            assert(p@.board =~= empty_board());
        }
        let mut fen_rank: u8 = 0;
        while fen_rank < 8
            invariant
                0 <= fen_rank <= 8,
                p.wf(),
                ranks@.len() == 8,
                views(ranks@) == rs,
                f == tokens(fen@),
                f.len() == 6,
                rs == pieces_between(f[0], '/'),
                read_board(rs, fen_rank as int) == Ok::<Seq<Option<Piece>>, Seq<char>>(p@.board),
                p@.side == Color::White,
                p@.castling == 0,
                p@.en_passant is None,
                p@.halfmove == 0,
                p@.fullmove == 1,
            decreases 8 - fen_rank,
        {
            let ghost b = p@.board;
            proof {
                assert(ranks@[fen_rank as int]@ == rs[fen_rank as int]);
                lemma_read_board_step(rs, fen_rank + 1, b);
            }
            match read_rank_into(&mut p, &ranks[fen_rank as usize], fen_rank) {
                Ok(file) => {
                    if file != 8 {
                        proof {
                            lemma_read_board_err_stays(rs, fen_rank + 1, 8);
                        }
                        return Err(message("rank does not contain eight squares"));
                    }
                },
                Err(e) => {
                    proof {
                        lemma_read_board_err_stays(rs, fen_rank + 1, 8);
                    }
                    return Err(e);
                },
            }
            fen_rank = fen_rank + 1;
        }
        let is_w = is_single(&fields[1], 'w');
        let is_b = is_single(&fields[1], 'b');
        if !is_w && !is_b {
            return Err(message("invalid active color"));
        }
        let side = if is_w { Color::White } else { Color::Black };
        p.set_side_to_move(side);
        let castling = if is_single(&fields[2], '-') {
            0
        } else {
            match read_castling_field(&fields[2]) {
                Ok(c) => c,
                Err(e) => {
                    return Err(e);
                },
            }
        };
        p.set_castling(castling);
        let ep = if is_single(&fields[3], '-') {
            None
        } else {
            let t = &fields[3];
            let named = if t.len() == 2 {
                proof {
                    assert(t@ =~= seq![t@[0], t@[1]]);
                }
                square_from_pair(t[0], t[1])
            } else {
                None
            };
            match named {
                None => {
                    return Err(message("invalid en-passant square"));
                },
                Some(sq) => {
                    let want: u8 = if is_w { 5 } else { 2 };
                    if sq.rank() != want {
                        return Err(message("en-passant square is on the wrong rank for the active color"));
                    }
                    Some(sq)
                },
            }
        };
        p.set_en_passant(ep);
        let hm = match parse_number(&fields[4], 65535) {
            Some(n) => n as u16,
            None => {
                return Err(message("invalid halfmove clock"));
            },
        };
        let fm = match parse_number(&fields[5], 65535) {
            Some(n) => n as u16,
            None => {
                return Err(message("invalid fullmove number"));
            },
        };
        if fm == 0 {
            return Err(message("fullmove number must be positive"));
        }
        p.set_clocks(hm, fm);
        Ok(p)
    }
}

/// The square named by two characters.
fn square_from_pair(f: char, k: char) -> (r: Option<Square>)
    ensures
        r == square_named(seq![f, k]),
{
    if !('a' <= f && f <= 'h') || !('1' <= k && k <= '8') {
        return None;
    }
    let file = (f as u32 - 'a' as u32) as u8;
    let rank = (k as u32 - '1' as u32) as u8;
    Square::from_coords(file, rank)
}

/// The FEN letter of a piece: upper case for White.
pub open spec fn piece_char(p: Piece) -> char {
    let c = match p.kind {
        PieceKind::Pawn => 'p',
        PieceKind::Knight => 'n',
        PieceKind::Bishop => 'b',
        PieceKind::Rook => 'r',
        PieceKind::Queen => 'q',
        PieceKind::King => 'k',
    };
    if p.color == Color::White {
        ((c as int) - 32) as char
    } else {
        c
    }
}

pub open spec fn count_char(n: int) -> Seq<char> {
    if n > 0 {
        seq![(n + '0' as int) as char]
    } else {
        seq![]
    }
}

/// The FEN text of the squares of `rank` from `file` on, after `empty` empty squares.
pub open spec fn rank_text(board: Seq<Option<Piece>>, rank: int, file: int, empty: int) -> Seq<char>
    decreases 8 - file,
{
    if file >= 8 {
        count_char(empty)
    } else {
        match board[square_at(file, rank)] {
            Some(p) => count_char(empty) + seq![piece_char(p)] + rank_text(board, rank, file + 1, 0),
            None => rank_text(board, rank, file + 1, empty + 1),
        }
    }
}

/// The FEN text of the top `n` ranks, from the eighth rank down, separated by '/'.
pub open spec fn board_text(board: Seq<Option<Piece>>, n: int) -> Seq<char>
    decreases n,
{
    if n <= 0 {
        seq![]
    } else if n == 1 {
        rank_text(board, 7, 0, 0)
    } else {
        board_text(board, n - 1) + seq!['/'] + rank_text(board, 8 - n, 0, 0)
    }
}

pub open spec fn flag_text(c: u8, flag: u8, ch: char) -> Seq<char> {
    if c & flag != 0 {
        seq![ch]
    } else {
        seq![]
    }
}

/// The castling field: the rights present in the order KQkq, or "-".
pub open spec fn castling_text(c: u8) -> Seq<char> {
    let s = flag_text(c, 1, 'K') + flag_text(c, 2, 'Q') + flag_text(c, 4, 'k') + flag_text(c, 8, 'q');
    if s.len() == 0 {
        seq!['-']
    } else {
        s
    }
}

/// The FEN text of a position.
pub open spec fn fen_text(v: PositionView) -> Seq<char> {
    board_text(v.board, 8) + seq![' '] + (if v.side == Color::White { seq!['w'] } else { seq!['b'] })
        + seq![' '] + castling_text(v.castling) + seq![' '] + (match v.en_passant {
        Some(s) => square_name(s@),
        None => seq!['-'],
    }) + seq![' '] + decimal(v.halfmove as nat) + seq![' '] + decimal(v.fullmove as nat)
}

fn piece_letter(p: Piece) -> (c: char)
    ensures
        c == piece_char(p),
{
    let c = match p.kind {
        PieceKind::Pawn => 'p',
        PieceKind::Knight => 'n',
        PieceKind::Bishop => 'b',
        PieceKind::Rook => 'r',
        PieceKind::Queen => 'q',
        PieceKind::King => 'k',
    };
    if p.color.is_white() {
        ((c as u32) - 32) as u8 as char
    } else {
        c
    }
}

fn push_count(s: &mut String, n: u8)
    requires
        n <= 8,
    ensures
        final(s)@ == old(s)@ + count_char(n as int),
{
    if n > 0 {
        push_char(s, ((n as u32) + ('0' as u32)) as u8 as char);
    } else {
        assert(old(s)@ + count_char(n as int) =~= old(s)@);
    }
}

fn push_flag(s: &mut String, c: u8, flag: u8, ch: char)
    ensures
        final(s)@ == old(s)@ + flag_text(c, flag, ch),
{
    if c & flag != 0 {
        push_char(s, ch);
    } else {
        assert(old(s)@ + flag_text(c, flag, ch) =~= old(s)@);
    }
}

fn push_castling(s: &mut String, c: u8)
    ensures
        final(s)@ == old(s)@ + castling_text(c),
{
    let ghost before = s@;
    push_flag(s, c, 1, 'K');
    push_flag(s, c, 2, 'Q');
    push_flag(s, c, 4, 'k');
    push_flag(s, c, 8, 'q');
    if c & 15 == 0 {
        proof {
            assert(c & 1 == 0 && c & 2 == 0 && c & 4 == 0 && c & 8 == 0) by (bit_vector)
                requires
                    c & 15 == 0,
            ;
            assert(s@ =~= before);
        }
        push_char(s, '-');
    } else {
        proof {
            assert(c & 1 != 0 || c & 2 != 0 || c & 4 != 0 || c & 8 != 0) by (bit_vector)
                requires
                    c & 15 != 0,
            ;
        }
    }
    proof {
        assert(s@ =~= before + castling_text(c));
    }
}

fn push_square_name(s: &mut String, sq: Square)
    ensures
        final(s)@ == old(s)@ + square_name(sq@),
{
    let name = sq.name();
    let nc = chars_of(name.as_str());
    push_char(s, nc[0]);
    push_char(s, nc[1]);
    proof {
        assert(nc@ =~= seq![nc@[0], nc@[1]]);
        assert(final(s)@ =~= old(s)@ + square_name(sq@));
    }
}

impl Position {
    fn push_rank_text(&self, s: &mut String, rank: u8)
        requires
            self.wf(),
            rank < 8,
        ensures
            final(s)@ == old(s)@ + rank_text(self@.board, rank as int, 0, 0),
    {
        let ghost board = self@.board;
        let ghost s0 = s@;
        let mut empty: u8 = 0;
        let mut file: u8 = 0;
        while file < 8
            invariant
                0 <= file <= 8,
                rank < 8,
                empty <= file,
                self.wf(),
                board == self@.board,
                s@ + rank_text(board, rank as int, file as int, empty as int) == s0 + rank_text(board, rank as int, 0, 0),
            decreases 8 - file,
        {
            let sq = Square::from_coords(file, rank).unwrap();
            match self.piece_at(sq) {
                Some(piece) => {
                    let ghost before = s@;
                    let ghost e0 = empty;
                    push_count(s, empty);
                    push_char(s, piece_letter(piece));
                    empty = 0;
                    proof {
                        assert(s@ + rank_text(board, rank as int, file + 1, 0) =~= before + rank_text(board, rank as int, file as int, e0 as int));
                    }
                },
                None => {
                    empty = empty + 1;
                },
            }
            file = file + 1;
        }
        push_count(s, empty);
        proof {
            assert(s@ =~= s0 + rank_text(board, rank as int, 0, 0));
        }
    }

    /// The FEN text of the position.
    pub fn to_fen(&self) -> (r: String)
        requires
            self.wf(),
        ensures
            r@ == fen_text(self@),
    {
        let ghost board = self@.board;
        let mut s = String::new();
        let mut rank: u8 = 8;
        while rank > 0
            invariant
                0 <= rank <= 8,
                self.wf(),
                board == self@.board,
                s@ == board_text(board, 8 - rank),
            decreases rank,
        {
            rank = rank - 1;
            if rank != 7 {
                push_char(&mut s, '/');
            }
            self.push_rank_text(&mut s, rank);
            proof {
                assert(s@ =~= board_text(board, 8 - rank));
            }
        }
        push_char(&mut s, ' ');
        push_char(&mut s, if self.side_to_move().is_white() { 'w' } else { 'b' });
        push_char(&mut s, ' ');
        push_castling(&mut s, self.castling_rights());
        push_char(&mut s, ' ');
        match self.en_passant_square() {
            Some(e) => {
                push_square_name(&mut s, e);
            },
            None => {
                push_char(&mut s, '-');
            },
        }
        push_char(&mut s, ' ');
        push_decimal(&mut s, self.halfmove_clock() as u64);
        push_char(&mut s, ' ');
        push_decimal(&mut s, self.fullmove_number() as u64);
        proof {
            assert(s@ =~= fen_text(self@));
        }
        s
    }

    /// The standard starting position.
    pub fn startpos() -> (r: Position)
        ensures
            r.wf(),
            r@ == start_view(),
    {
        let mut p = Position::empty();
        let mut file: u8 = 0;
        while file < 8
            invariant
                0 <= file <= 8,
                p.wf(),
                forall|i: int| 0 <= i < 64 ==> #[trigger] p@.board[i] == (if file_of(i) < file { start_board()[i] } else { None }),
                p@.side == Color::White,
                p@.castling == 0,
                p@.en_passant is None,
                p@.halfmove == 0,
                p@.fullmove == 1,
            decreases 8 - file,
        {
            let kind = match file {
                0 | 7 => PieceKind::Rook,
                1 | 6 => PieceKind::Knight,
                2 | 5 => PieceKind::Bishop,
                3 => PieceKind::Queen,
                _ => PieceKind::King,
            };
            p.set_piece(Square::from_coords(file, 0).unwrap(), Some(Piece { color: Color::White, kind }));
            p.set_piece(Square::from_coords(file, 1).unwrap(), Some(Piece { color: Color::White, kind: PieceKind::Pawn }));
            p.set_piece(Square::from_coords(file, 6).unwrap(), Some(Piece { color: Color::Black, kind: PieceKind::Pawn }));
            p.set_piece(Square::from_coords(file, 7).unwrap(), Some(Piece { color: Color::Black, kind }));
            file = file + 1;
        }
        p.set_castling(15);
        proof {
            assert(p@.board =~= start_board());
        }
        p
    }
}

/// The piece kinds of the first rank, from the a-file to the h-file.
pub open spec fn back_rank_kind(file: int) -> PieceKind {
    if file == 0 || file == 7 {
        PieceKind::Rook
    } else if file == 1 || file == 6 {
        PieceKind::Knight
    } else if file == 2 || file == 5 {
        PieceKind::Bishop
    } else if file == 3 {
        PieceKind::Queen
    } else {
        PieceKind::King
    }
}

/// The board of the standard starting position.
pub open spec fn start_board() -> Seq<Option<Piece>> {
    Seq::new(
        64,
        |i: int|
            if rank_of(i) == 0 {
                Some(Piece { color: Color::White, kind: back_rank_kind(file_of(i)) })
            } else if rank_of(i) == 1 {
                Some(Piece { color: Color::White, kind: PieceKind::Pawn })
            } else if rank_of(i) == 6 {
                Some(Piece { color: Color::Black, kind: PieceKind::Pawn })
            } else if rank_of(i) == 7 {
                Some(Piece { color: Color::Black, kind: back_rank_kind(file_of(i)) })
            } else {
                None
            },
    )
}

/// The standard starting position: White to move, all castling rights, clocks 0 and 1.
pub open spec fn start_view() -> PositionView {
    PositionView {
        board: start_board(),
        side: Color::White,
        castling: 15,
        en_passant: None,
        halfmove: 0,
        fullmove: 1,
    }
}
} // verus!
