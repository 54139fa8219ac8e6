//! Colors, pieces and squares.
use vstd::prelude::*;
use vstd::string::*;
use crate::bits::{bit, lemma_bit_single};
use crate::text::{push_char, chars_of};

verus! {

/// A set of squares, one bit per square (a1 = bit 0, h8 = bit 63).
pub type Bitboard = u64;

#[derive(Clone, Copy, Debug, PartialEq, Eq, Hash, Structural)]
pub enum Color {
    White,
    Black,
}

impl Color {
    pub open spec fn spec_opposite(self) -> Color {
        match self {
            Color::White => Color::Black,
            Color::Black => Color::White,
        }
    }

    #[verifier::when_used_as_spec(spec_opposite)]
    pub fn opposite(self) -> (r: Color)
        ensures
            r == self.spec_opposite(),
    {
        match self {
            Color::White => Color::Black,
            Color::Black => Color::White,
        }
    }

    /// 0 for White, 1 for Black.
    pub open spec fn idx(self) -> int {
        match self {
            Color::White => 0,
            Color::Black => 1,
        }
    }

    pub fn index(self) -> (r: usize)
        ensures
            r == self.idx(),
    {
        match self {
            Color::White => 0,
            Color::Black => 1,
        }
    }

    pub fn is_white(self) -> (r: bool)
        ensures
            r == (self == Color::White),
    {
        match self {
            Color::White => true,
            Color::Black => false,
        }
    }
}

#[derive(Clone, Copy, Debug, PartialEq, Eq, Hash, Structural)]
pub enum PieceKind {
    Pawn,
    Knight,
    Bishop,
    Rook,
    Queen,
    King,
}

impl PieceKind {
    /// 0 for Pawn through 5 for King.
    pub open spec fn idx(self) -> int {
        match self {
            PieceKind::Pawn => 0,
            PieceKind::Knight => 1,
            PieceKind::Bishop => 2,
            PieceKind::Rook => 3,
            PieceKind::Queen => 4,
            PieceKind::King => 5,
        }
    }

    pub fn index(self) -> (r: usize)
        ensures
            r == self.idx(),
    {
        match self {
            PieceKind::Pawn => 0,
            PieceKind::Knight => 1,
            PieceKind::Bishop => 2,
            PieceKind::Rook => 3,
            PieceKind::Queen => 4,
            PieceKind::King => 5,
        }
    }

    pub open spec fn from_idx(i: int) -> PieceKind {
        if i == 0 {
            PieceKind::Pawn
        } else if i == 1 {
            PieceKind::Knight
        } else if i == 2 {
            PieceKind::Bishop
        } else if i == 3 {
            PieceKind::Rook
        } else if i == 4 {
            PieceKind::Queen
        } else {
            PieceKind::King
        }
    }

    pub fn eq_kind(self, other: PieceKind) -> (r: bool)
        ensures
            r == (self == other),
    {
        self.index() == other.index()
    }
}

#[derive(Clone, Copy, Debug, PartialEq, Eq, Hash, Structural)]
pub struct Piece {
    pub color: Color,
    pub kind: PieceKind,
}

/// File (0 = a) of a square index.
pub open spec fn file_of(i: int) -> int {
    i % 8
}

/// Rank (0 = first rank) of a square index.
pub open spec fn rank_of(i: int) -> int {
    i / 8
}

pub open spec fn on_board(file: int, rank: int) -> bool {
    0 <= file < 8 && 0 <= rank < 8
}

/// Index of the square on `file` and `rank`.
pub open spec fn square_at(file: int, rank: int) -> int {
    rank * 8 + file
}

/// Index of the square `df` files and `dr` ranks away from square `i`, if on the board.
pub open spec fn offset_index(i: int, df: int, dr: int) -> Option<int> {
    if on_board(file_of(i) + df, rank_of(i) + dr) {
        Some(square_at(file_of(i) + df, rank_of(i) + dr))
    } else {
        None
    }
}

/// Board square indexed a1=0, b1=1, ..., h8=63.
#[derive(Clone, Copy, Debug, PartialEq, Eq, Hash, PartialOrd, Ord, Structural)]
pub struct Square(u8);

impl View for Square {
    type V = int;

    closed spec fn view(&self) -> int {
        self.0 as int
    }
}

impl Square {
    #[verifier::type_invariant]
    spec fn inv(self) -> bool {
        self.0 < 64
    }

    /// The square with index `i` (meaningful for `0 <= i < 64`).
    pub closed spec fn from_index(i: int) -> Square {
        Square(i as u8)
    }

    pub broadcast proof fn lemma_view_bounds(s: Square)
        ensures
            0 <= #[trigger] s@ < 256,
    {
    }

    pub broadcast proof fn lemma_from_index(i: int)
        requires
            0 <= i < 256,
        ensures
            #[trigger] Square::from_index(i)@ == i,
    {
    }

    pub broadcast proof fn lemma_from_index_view(s: Square)
        ensures
            #[trigger] Square::from_index(s@) == s,
    {
    }

    /// The square `df` files and `dr` ranks away from `s`, if it is on the board.
    pub open spec fn spec_offset(s: Square, df: int, dr: int) -> Option<Square> {
        match offset_index(s@, df, dr) {
            Some(i) => Some(Square::from_index(i)),
            None => None,
        }
    }

    pub fn new(index: u8) -> (r: Option<Square>)
        ensures
            index < 64 ==> r == Some(Square::from_index(index as int)),
            index >= 64 ==> r is None,
    {
        if index < 64 {
            Some(Square(index))
        } else {
            None
        }
    }

    pub fn index(self) -> (r: u8)
        ensures
            r == self@,
            r < 64,
    {
        proof {
            use_type_invariant(&self);
        }
        self.0
    }

    pub fn file(self) -> (r: u8)
        ensures
            r == file_of(self@),
            r < 8,
    {
        self.index() % 8
    }

    pub fn rank(self) -> (r: u8)
        ensures
            r == rank_of(self@),
            r < 8,
    {
        self.index() / 8
    }

    pub fn bit(self) -> (r: Bitboard)
        ensures
            forall|i: int| #[trigger] bit(r, i) == (i == self@),
            r == 1u64 << (self@ as u64),
    {
        let i = self.index();
        let r = 1u64 << (i as u64);
        proof {
            assert forall|j: int| #[trigger] bit(r, j) == (j == self@) by {
                lemma_bit_single(i as u64, j);
            }
        }
        r
    }

    pub fn from_coords(file: u8, rank: u8) -> (r: Option<Square>)
        ensures
            file < 8 && rank < 8 ==> r == Some(Square::from_index(square_at(file as int, rank as int))),
            !(file < 8 && rank < 8) ==> r is None,
    {
        if file < 8 && rank < 8 {
            Some(Square(rank * 8 + file))
        } else {
            None
        }
    }

    /// The square named by `name` ("a1" to "h8").
    pub fn from_name(name: &str) -> (r: Option<Square>)
        ensures
            r == square_named(name@),
    {
        let cs = chars_of(name);
        if cs.len() != 2 {
            return None;
        }
        let f = cs[0];
        let k = cs[1];
        if !('a' <= f && f <= 'h') || !('1' <= k && k <= '8') {
            return None;
        }
        let file = (f as u32 - 'a' as u32) as u8;
        let rank = (k as u32 - '1' as u32) as u8;
        Self::from_coords(file, rank)
    }

    pub fn offset(self, df: i8, dr: i8) -> (r: Option<Square>)
        requires
            -128 <= file_of(self@) + df <= 127,
            -128 <= rank_of(self@) + dr <= 127,
        ensures
            r == Square::spec_offset(self, df as int, dr as int),
    {
        let file = self.file() as i8 + df;
        let rank = self.rank() as i8 + dr;
        if file >= 0 && file < 8 && rank >= 0 && rank < 8 {
            Some(Square((rank as u8) * 8 + file as u8))
        } else {
            None
        }
    }

    /// The square's name, such as "e4".
    pub fn name(self) -> (r: String)
        ensures
            r@ == square_name(self@),
    {
        let mut s = String::new();
        let f = ((self.file() as u32) + ('a' as u32)) as u8;
        let k = ((self.rank() as u32) + ('1' as u32)) as u8;
        push_char(&mut s, f as char);
        push_char(&mut s, k as char);
        s
    }
}

/// The two-character name of square index `i`.
pub open spec fn square_name(i: int) -> Seq<char> {
    seq![(file_of(i) + 'a' as int) as char, (rank_of(i) + '1' as int) as char]
}

/// The square a two-character name such as "e4" denotes.
pub open spec fn square_named(s: Seq<char>) -> Option<Square> {
    if s.len() == 2 && 'a' <= s[0] <= 'h' && '1' <= s[1] <= '8' {
        Some(Square::from_index(square_at(s[0] as int - 'a' as int, s[1] as int - '1' as int)))
    } else {
        None
    }
}

} // verus!
