//! Rookery: a bitboard chess engine whose board primitives, move generation,
//! make/unmake, FEN handling, hashing and search are verified with Verus.

pub mod bits;
pub mod bitboard;
pub mod text;
pub mod attacks;
pub mod chess_move;
pub mod position;
pub mod movegen;
pub mod fen;
pub mod fen_roundtrip;
pub mod hash;
pub mod search;
pub mod search_values;
pub mod web;
pub mod uci;
pub mod uci_loop;
pub mod move_laws;
pub mod en_passant;
pub mod material_laws;
pub mod rule_laws;

pub use bitboard::{Bitboard, Color, Piece, PieceKind, Square};
pub use position::Position;
