//! Moves in UCI coordinate notation.
use vstd::prelude::*;
use crate::bitboard::{Square, square_name, square_named, square_at};
use crate::text::{push_char, chars_of};

verus! {

broadcast use {Square::lemma_view_bounds, Square::lemma_from_index, Square::lemma_from_index_view};

#[derive(Clone, Copy, Debug, PartialEq, Eq, Hash, Structural)]
pub enum Promotion {
    Queen,
    Rook,
    Bishop,
    Knight,
}

#[derive(Clone, Copy, Debug, PartialEq, Eq, Hash, Structural)]
pub struct Move {
    pub from: Square,
    pub to: Square,
    pub promotion: Option<Promotion>,
}

/// The promotion a (case-insensitive) UCI suffix letter denotes.
pub open spec fn promotion_of_char(c: char) -> Option<Promotion> {
    if c == 'q' || c == 'Q' {
        Some(Promotion::Queen)
    } else if c == 'r' || c == 'R' {
        Some(Promotion::Rook)
    } else if c == 'b' || c == 'B' {
        Some(Promotion::Bishop)
    } else if c == 'n' || c == 'N' {
        Some(Promotion::Knight)
    } else {
        None
    }
}

/// The lower-case UCI suffix letter of a promotion.
pub open spec fn promotion_char(p: Promotion) -> char {
    match p {
        Promotion::Queen => 'q',
        Promotion::Rook => 'r',
        Promotion::Bishop => 'b',
        Promotion::Knight => 'n',
    }
}

/// The move a UCI coordinate string such as "e2e4" or "a7a8q" denotes.
pub open spec fn uci_move_of(s: Seq<char>) -> Option<Move> {
    if (s.len() == 4 || s.len() == 5) && square_named(s.subrange(0, 2)) is Some && square_named(
        s.subrange(2, 4),
    ) is Some {
        let from = square_named(s.subrange(0, 2))->0;
        let to = square_named(s.subrange(2, 4))->0;
        if s.len() == 4 {
            Some(Move { from, to, promotion: None })
        } else {
            match promotion_of_char(s[4]) {
                Some(p) => Some(Move { from, to, promotion: Some(p) }),
                None => None,
            }
        }
    } else {
        None
    }
}

/// The UCI text of a move.
pub open spec fn uci_text(m: Move) -> Seq<char> {
    let base = square_name(m.from@) + square_name(m.to@);
    match m.promotion {
        Some(p) => base.push(promotion_char(p)),
        None => base,
    }
}

impl Move {
    pub fn new(from: Square, to: Square, promotion: Option<Promotion>) -> (r: Move)
        ensures
            r == (Move { from, to, promotion }),
    {
        Move { from, to, promotion }
    }

    /// Parses UCI coordinate notation such as "e2e4" or "a7a8q".
    pub fn from_uci(text: &str) -> (r: Option<Move>)
        ensures
            r == uci_move_of(text@),
    {
        let cs = chars_of(text);
        let n = cs.len();
        if n != 4 && n != 5 {
            return None;
        }
        let from = match square_from_chars(cs[0], cs[1]) {
            Some(s) => s,
            None => {
                proof {
                    assert(text@.subrange(0, 2) =~= seq![text@[0], text@[1]]);
                }
                return None;
            },
        };
        let to = match square_from_chars(cs[2], cs[3]) {
            Some(s) => s,
            None => {
                proof {
                    assert(text@.subrange(2, 4) =~= seq![text@[2], text@[3]]);
                }
                return None;
            },
        };
        proof {
            assert(text@.subrange(0, 2) =~= seq![text@[0], text@[1]]);
            assert(text@.subrange(2, 4) =~= seq![text@[2], text@[3]]);
        }
        let promotion = if n == 5 {
            let c = cs[4];
            if c == 'q' || c == 'Q' {
                Some(Promotion::Queen)
            } else if c == 'r' || c == 'R' {
                Some(Promotion::Rook)
            } else if c == 'b' || c == 'B' {
                Some(Promotion::Bishop)
            } else if c == 'n' || c == 'N' {
                Some(Promotion::Knight)
            } else {
                return None;
            }
        } else {
            None
        };
        Some(Move { from, to, promotion })
    }

    /// The move in UCI coordinate notation, such as "e7e8q".
    pub fn to_uci(&self) -> (r: String)
        ensures
            r@ == uci_text(*self),
    {
        let mut s = self.from.name();
        let t = self.to.name();
        let tc = chars_of(t.as_str());
        push_char(&mut s, tc[0]);
        push_char(&mut s, tc[1]);
        proof {
            assert(tc@ =~= seq![tc@[0], tc@[1]]);
        }
        match self.promotion {
            Some(p) => {
                let c = match p {
                    Promotion::Queen => 'q',
                    Promotion::Rook => 'r',
                    Promotion::Bishop => 'b',
                    Promotion::Knight => 'n',
                };
                push_char(&mut s, c);
            },
            None => {},
        }
        proof {
            assert(s@ =~= uci_text(*self));
        }
        s
    }
}

/// The square named by the two characters `f` and `k`.
fn square_from_chars(f: char, k: char) -> (r: Option<Square>)
    ensures
        r == square_named(seq![f, k]),
{
    if !('a' <= f && f <= 'h') || !('1' <= k && k <= '8') {
        return None;
    }
    let file = (f as u32 - 'a' as u32) as u8;
    let rank = (k as u32 - '1' as u32) as u8;
    Square::from_coords(file, rank)
}

/// Parsing the UCI text of a move gives the move back.
pub proof fn lemma_uci_round_trip(m: Move)
    requires
        0 <= m.from@ < 64,
        0 <= m.to@ < 64,
    ensures
        uci_move_of(uci_text(m)) == Some(m),
{
    let t = uci_text(m);
    let base = square_name(m.from@) + square_name(m.to@);
    assert(base.subrange(0, 2) =~= square_name(m.from@));
    assert(base.subrange(2, 4) =~= square_name(m.to@));
    lemma_name_round_trip(m.from);
    lemma_name_round_trip(m.to);
    match m.promotion {
        Some(p) => {
            assert(t.subrange(0, 2) =~= square_name(m.from@));
            assert(t.subrange(2, 4) =~= square_name(m.to@));
        },
        None => {},
    }
}

/// Reading back the name of a square gives the square.
pub proof fn lemma_name_round_trip(s: Square)
    requires
        0 <= s@ < 64,
    ensures
        square_named(square_name(s@)) == Some(s),
{
    let n = square_name(s@);
    assert(square_at(n[0] as int - 'a' as int, n[1] as int - '1' as int) == s@);
}

} // verus!
