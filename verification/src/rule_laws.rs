//! Laws of the game's rules that tie the operations to what they are for: a capture resets
//! the fifty-move clock, castling rights are part of a position's identity, a repetition draw
//! needs a third occurrence, and UCI promotion letters name the piece promoted to.
use vstd::prelude::*;
use crate::bitboard::{Color, PieceKind, Square, square_name};
use crate::chess_move::{Move, Promotion, promotion_char, promotion_of_char, uci_move_of, uci_text, lemma_name_round_trip};
use crate::fen::piece_char;
use crate::hash::{en_passant_capture_is_safe, has_safe_en_passant_capture, GAMMA, MIX1, MIX2, board_key, castling_key, legal_en_passant, position_key, wmul};
use crate::movegen::legal_seq;
use crate::position::{PositionView, can_make, insufficient_material, is_kind, promoted_piece, spec_make};
use crate::search::{is_repeated, occurrences, settled_value};
use crate::web::game_status;

verus! {

broadcast use {Square::lemma_view_bounds, Square::lemma_from_index, Square::lemma_from_index_view};

// ---------------------------------------------------------------------------------------
// The fifty-move clock.
// ---------------------------------------------------------------------------------------

/// A move that takes a piece (one standing on its target, or a pawn taken en passant)
/// starts the fifty-move count afresh: the halfmove clock after it is 0. So does any pawn
/// move; any other move adds one to the clock (stopping at its largest value).
pub proof fn lemma_halfmove_clock_after_move(v: PositionView, m: Move)
    requires
        can_make(v, m),
    ensures
        v.board[m.to@] is Some ==> spec_make(v, m).halfmove == 0,
        is_kind(v.board[m.from@], PieceKind::Pawn) ==> spec_make(v, m).halfmove == 0,
        v.board[m.to@] is None && !is_kind(v.board[m.from@], PieceKind::Pawn) ==> spec_make(
            v,
            m,
        ).halfmove == if v.halfmove < u16::MAX {
            v.halfmove + 1
        } else {
            v.halfmove as int
        },
{
}

// ---------------------------------------------------------------------------------------
// Castling rights in the keys.
// ---------------------------------------------------------------------------------------

/// The sixteen castling-rights keys.
pub open spec fn castling_key_table(c: u8) -> u64 {
    if c == 0 {
        0xe9bff1ac37cd3760u64
    } else if c == 1 {
        0x5b1c44f240a786dfu64
    } else if c == 2 {
        0xdd2e5d6f2b4b30d5u64
    } else if c == 3 {
        0x74cdd16b7f0fb3c4u64
    } else if c == 4 {
        0x39edba15ba6d5deau64
    } else if c == 5 {
        0x893a48adc5c59fc3u64
    } else if c == 6 {
        0x5d88d67ac62f910au64
    } else if c == 7 {
        0x6637c1ce6357a2c8u64
    } else if c == 8 {
        0xfc7b432fba88a23cu64
    } else if c == 9 {
        0xcbd18ebcd1f9b00du64
    } else if c == 10 {
        0xcc5d77cdfdf2f139u64
    } else if c == 11 {
        0xf87eec1b08afc93u64
    } else if c == 12 {
        0xdad6d0b2edb856a9u64
    } else if c == 13 {
        0xf1967332fb44fe31u64
    } else if c == 14 {
        0x7e2ea1f8378a6b05u64
    } else {
        0xf7030484c2112723u64
    }
}

/// The xor-shift steps of the castling keys' mixing, on the values they meet.
proof fn lemma_castling_mix_steps()
    ensures
        (0x811399aa5d53b33fu64 ^ (0x811399aa5d53b33fu64 >> 30u64)) == 0x811399a8591dd596u64,
        (0xa0cccf2cb8368766u64 ^ (0xa0cccf2cb8368766u64 >> 27u64)) == 0xa0cccf38a1af62f1u64,
        (0xe9bff1ade4b2d43bu64 ^ (0xe9bff1ade4b2d43bu64 >> 31u64)) == 0xe9bff1ac37cd3760u64,
        (0x1f4b1363dc9e2f54u64 ^ (0x1f4b1363dc9e2f54u64 >> 30u64)) == 0x1f4b1363a1b262dbu64,
        (0xa2ab7c936b635743u64 ^ (0xa2ab7c936b635743u64 >> 27u64)) == 0xa2ab7c873e0cc52eu64,
        (0x5b1c44f2f69f0f3au64 ^ (0x5b1c44f2f69f0f3au64 >> 31u64)) == 0x5b1c44f240a786dfu64,
        (0xbd828d1d5be8ab69u64 ^ (0xbd828d1d5be8ab69u64 >> 30u64)) == 0xbd828d1fade29f1cu64,
        (0x5c0f7c992609073cu64 ^ (0x5c0f7c992609073cu64 >> 27u64)) == 0x5c0f7c92a7e69418u64,
        (0xdd2e5d6e91178a08u64 ^ (0xdd2e5d6e91178a08u64 >> 31u64)) == 0xdd2e5d6f2b4b30d5u64,
        (0x5bba06d6db33277eu64 ^ (0x5bba06d6db33277eu64 >> 30u64)) == 0x5bba06d7b5db3c25u64,
        (0xe54eb826252f8fbdu64 ^ (0xe54eb826252f8fbdu64 >> 27u64)) == 0xe54eb83a8cf88b79u64,
        (0x74cdd16b96941113u64 ^ (0x74cdd16b96941113u64 >> 31u64)) == 0x74cdd16b7f0fb3c4u64,
        (0xf9f180905a7da393u64 ^ (0xf9f180905a7da393u64 >> 30u64)) == 0xf9f18093bdbba1d2u64,
        (0x74d4b8b60b60cac2u64 ^ (0x74d4b8b60b60cac2u64 >> 27u64)) == 0x74d4b8b891f7dc03u64,
        (0x39edba15c9b629c1u64 ^ (0x39edba15c9b629c1u64 >> 31u64)) == 0x39edba15ba6d5deau64,
        (0x9828fa49d9c81fa8u64 ^ (0x9828fa49d9c81fa8u64 >> 30u64)) == 0x9828fa4bb96bf68fu64,
        (0x27bd3498cdef1857u64 ^ (0x27bd3498cdef1857u64 >> 27u64)) == 0x27bd349c3a498b4eu64,
        (0x893a48acd7b10e9au64 ^ (0x893a48acd7b10e9au64 >> 31u64)) == 0x893a48adc5c59fc3u64,
        (0x3660740359129bbdu64 ^ (0x3660740359129bbdu64 >> 30u64)) == 0x3660740380934bb0u64,
        (0x35dea1f255e62230u64 ^ (0x35dea1f255e62230u64 >> 27u64)) == 0x35dea1f4ee321c7au64,
        (0x5d88d67a7d3e3dfeu64 ^ (0x5d88d67a7d3e3dfeu64 >> 31u64)) == 0x5d88d67ac62f910au64,
        (0xd497edbcd85d17d2u64 ^ (0xd497edbcd85d17d2u64 >> 30u64)) == 0xd497edbf8a02a121u64,
        (0xbb4d1be3336cf5d9u64 ^ (0xbb4d1be3336cf5d9u64 >> 27u64)) == 0xbb4d1bf45acf89bfu64,
        (0x6637c1ceaf382155u64 ^ (0x6637c1ceaf382155u64 >> 31u64)) == 0x6637c1ce6357a2c8u64,
        (0x72cf677657a793e7u64 ^ (0x72cf677657a793e7u64 >> 30u64)) == 0x72cf67779c9a0e3eu64,
        (0x49f359af7149c0ceu64 ^ (0x49f359af7149c0ceu64 >> 27u64)) == 0x49f359a64f22f520u64,
        (0xfc7b432e427e2460u64 ^ (0xfc7b432e427e2460u64 >> 31u64)) == 0xfc7b432fba88a23cu64,
        (0x1106e12fd6f20ffcu64 ^ (0x1106e12fd6f20ffcu64 >> 30u64)) == 0x1106e12f92e98b43u64,
        (0x66f08d8e7004926bu64 ^ (0x66f08d8e7004926bu64 >> 27u64)) == 0x66f08d82ae1523a5u64,
        (0xcbd18ebd465aad77u64 ^ (0xcbd18ebd465aad77u64 >> 31u64)) == 0xcbd18ebcd1f9b00du64,
        (0xaf3e5ae9563c8c11u64 ^ (0xaf3e5ae9563c8c11u64 >> 30u64)) == 0xaf3e5aebeac5e7b4u64,
        (0xfe960ebdbd987514u64 ^ (0xfe960ebdbd987514u64 >> 27u64)) == 0xfe960ea26f59a2a3u64,
        (0xcc5d77cc65481ea1u64 ^ (0xcc5d77cc65481ea1u64 >> 31u64)) == 0xcc5d77cdfdf2f139u64,
        (0x4d75d4a2d5870826u64 ^ (0x4d75d4a2d5870826u64 >> 30u64)) == 0x4d75d4a3e0505aadu64,
        (0xb9ae6a39a9424805u64 ^ (0xb9ae6a39a9424805u64 >> 27u64)) == 0xb9ae6a2e9c8f0f30u64,
        (0xf87eec1af852110u64 ^ (0xf87eec1af852110u64 >> 31u64)) == 0xf87eec1b08afc93u64,
        (0xebad4e5c54d1843bu64 ^ (0xebad4e5c54d1843bu64 >> 30u64)) == 0xebad4e5ffa64bd4au64,
        (0x790ba346be07fc7au64 ^ (0x790ba346be07fc7au64 >> 27u64)) == 0x790ba3499f7394adu64,
        (0xdad6d0b35815f7cfu64 ^ (0xdad6d0b35815f7cfu64 >> 31u64)) == 0xdad6d0b2edb856a9u64,
        (0x89e4c815d41c0050u64 ^ (0x89e4c815d41c0050u64 >> 30u64)) == 0x89e4c817f38f2007u64,
        (0xc2852d225450680fu64 ^ (0xc2852d225450680fu64 >> 27u64)) == 0xc2852d3a04f5cc45u64,
        (0xf196733318681857u64 ^ (0xf196733318681857u64 >> 31u64)) == 0xf1967332fb44fe31u64,
        (0x281c41cf53667c65u64 ^ (0x281c41cf53667c65u64 >> 30u64)) == 0x281c41cff3177b58u64,
        (0xb18a929a27adda98u64 ^ (0xb18a929a27adda98u64 >> 27u64)) == 0xb18a928c16ff89dcu64,
        (0x7e2ea1f8cbd728f4u64 ^ (0x7e2ea1f8cbd728f4u64 >> 31u64)) == 0x7e2ea1f8378a6b05u64,
        (0xc653bb88d2b0f87au64 ^ (0xc653bb88d2b0f87au64 >> 30u64)) == 0xc653bb8bcbfe1659u64,
        (0xf512412357dfc351u64 ^ (0xf512412357dfc351u64 >> 27u64)) == 0xf512413df597e73bu64,
        (0xf70304852c172e29u64 ^ (0xf70304852c172e29u64 >> 31u64)) == 0xf7030484c2112723u64,
{
    assert({
        &&& (0x811399aa5d53b33fu64 ^ (0x811399aa5d53b33fu64 >> 30u64)) == 0x811399a8591dd596u64
        &&& (0xa0cccf2cb8368766u64 ^ (0xa0cccf2cb8368766u64 >> 27u64)) == 0xa0cccf38a1af62f1u64
        &&& (0xe9bff1ade4b2d43bu64 ^ (0xe9bff1ade4b2d43bu64 >> 31u64)) == 0xe9bff1ac37cd3760u64
        &&& (0x1f4b1363dc9e2f54u64 ^ (0x1f4b1363dc9e2f54u64 >> 30u64)) == 0x1f4b1363a1b262dbu64
        &&& (0xa2ab7c936b635743u64 ^ (0xa2ab7c936b635743u64 >> 27u64)) == 0xa2ab7c873e0cc52eu64
        &&& (0x5b1c44f2f69f0f3au64 ^ (0x5b1c44f2f69f0f3au64 >> 31u64)) == 0x5b1c44f240a786dfu64
        &&& (0xbd828d1d5be8ab69u64 ^ (0xbd828d1d5be8ab69u64 >> 30u64)) == 0xbd828d1fade29f1cu64
        &&& (0x5c0f7c992609073cu64 ^ (0x5c0f7c992609073cu64 >> 27u64)) == 0x5c0f7c92a7e69418u64
        &&& (0xdd2e5d6e91178a08u64 ^ (0xdd2e5d6e91178a08u64 >> 31u64)) == 0xdd2e5d6f2b4b30d5u64
        &&& (0x5bba06d6db33277eu64 ^ (0x5bba06d6db33277eu64 >> 30u64)) == 0x5bba06d7b5db3c25u64
        &&& (0xe54eb826252f8fbdu64 ^ (0xe54eb826252f8fbdu64 >> 27u64)) == 0xe54eb83a8cf88b79u64
        &&& (0x74cdd16b96941113u64 ^ (0x74cdd16b96941113u64 >> 31u64)) == 0x74cdd16b7f0fb3c4u64
        &&& (0xf9f180905a7da393u64 ^ (0xf9f180905a7da393u64 >> 30u64)) == 0xf9f18093bdbba1d2u64
        &&& (0x74d4b8b60b60cac2u64 ^ (0x74d4b8b60b60cac2u64 >> 27u64)) == 0x74d4b8b891f7dc03u64
        &&& (0x39edba15c9b629c1u64 ^ (0x39edba15c9b629c1u64 >> 31u64)) == 0x39edba15ba6d5deau64
        &&& (0x9828fa49d9c81fa8u64 ^ (0x9828fa49d9c81fa8u64 >> 30u64)) == 0x9828fa4bb96bf68fu64
        &&& (0x27bd3498cdef1857u64 ^ (0x27bd3498cdef1857u64 >> 27u64)) == 0x27bd349c3a498b4eu64
        &&& (0x893a48acd7b10e9au64 ^ (0x893a48acd7b10e9au64 >> 31u64)) == 0x893a48adc5c59fc3u64
        &&& (0x3660740359129bbdu64 ^ (0x3660740359129bbdu64 >> 30u64)) == 0x3660740380934bb0u64
        &&& (0x35dea1f255e62230u64 ^ (0x35dea1f255e62230u64 >> 27u64)) == 0x35dea1f4ee321c7au64
        &&& (0x5d88d67a7d3e3dfeu64 ^ (0x5d88d67a7d3e3dfeu64 >> 31u64)) == 0x5d88d67ac62f910au64
        &&& (0xd497edbcd85d17d2u64 ^ (0xd497edbcd85d17d2u64 >> 30u64)) == 0xd497edbf8a02a121u64
        &&& (0xbb4d1be3336cf5d9u64 ^ (0xbb4d1be3336cf5d9u64 >> 27u64)) == 0xbb4d1bf45acf89bfu64
        &&& (0x6637c1ceaf382155u64 ^ (0x6637c1ceaf382155u64 >> 31u64)) == 0x6637c1ce6357a2c8u64
        &&& (0x72cf677657a793e7u64 ^ (0x72cf677657a793e7u64 >> 30u64)) == 0x72cf67779c9a0e3eu64
        &&& (0x49f359af7149c0ceu64 ^ (0x49f359af7149c0ceu64 >> 27u64)) == 0x49f359a64f22f520u64
        &&& (0xfc7b432e427e2460u64 ^ (0xfc7b432e427e2460u64 >> 31u64)) == 0xfc7b432fba88a23cu64
        &&& (0x1106e12fd6f20ffcu64 ^ (0x1106e12fd6f20ffcu64 >> 30u64)) == 0x1106e12f92e98b43u64
        &&& (0x66f08d8e7004926bu64 ^ (0x66f08d8e7004926bu64 >> 27u64)) == 0x66f08d82ae1523a5u64
        &&& (0xcbd18ebd465aad77u64 ^ (0xcbd18ebd465aad77u64 >> 31u64)) == 0xcbd18ebcd1f9b00du64
        &&& (0xaf3e5ae9563c8c11u64 ^ (0xaf3e5ae9563c8c11u64 >> 30u64)) == 0xaf3e5aebeac5e7b4u64
        &&& (0xfe960ebdbd987514u64 ^ (0xfe960ebdbd987514u64 >> 27u64)) == 0xfe960ea26f59a2a3u64
        &&& (0xcc5d77cc65481ea1u64 ^ (0xcc5d77cc65481ea1u64 >> 31u64)) == 0xcc5d77cdfdf2f139u64
        &&& (0x4d75d4a2d5870826u64 ^ (0x4d75d4a2d5870826u64 >> 30u64)) == 0x4d75d4a3e0505aadu64
        &&& (0xb9ae6a39a9424805u64 ^ (0xb9ae6a39a9424805u64 >> 27u64)) == 0xb9ae6a2e9c8f0f30u64
        &&& (0xf87eec1af852110u64 ^ (0xf87eec1af852110u64 >> 31u64)) == 0xf87eec1b08afc93u64
        &&& (0xebad4e5c54d1843bu64 ^ (0xebad4e5c54d1843bu64 >> 30u64)) == 0xebad4e5ffa64bd4au64
        &&& (0x790ba346be07fc7au64 ^ (0x790ba346be07fc7au64 >> 27u64)) == 0x790ba3499f7394adu64
        &&& (0xdad6d0b35815f7cfu64 ^ (0xdad6d0b35815f7cfu64 >> 31u64)) == 0xdad6d0b2edb856a9u64
        &&& (0x89e4c815d41c0050u64 ^ (0x89e4c815d41c0050u64 >> 30u64)) == 0x89e4c817f38f2007u64
        &&& (0xc2852d225450680fu64 ^ (0xc2852d225450680fu64 >> 27u64)) == 0xc2852d3a04f5cc45u64
        &&& (0xf196733318681857u64 ^ (0xf196733318681857u64 >> 31u64)) == 0xf1967332fb44fe31u64
        &&& (0x281c41cf53667c65u64 ^ (0x281c41cf53667c65u64 >> 30u64)) == 0x281c41cff3177b58u64
        &&& (0xb18a929a27adda98u64 ^ (0xb18a929a27adda98u64 >> 27u64)) == 0xb18a928c16ff89dcu64
        &&& (0x7e2ea1f8cbd728f4u64 ^ (0x7e2ea1f8cbd728f4u64 >> 31u64)) == 0x7e2ea1f8378a6b05u64
        &&& (0xc653bb88d2b0f87au64 ^ (0xc653bb88d2b0f87au64 >> 30u64)) == 0xc653bb8bcbfe1659u64
        &&& (0xf512412357dfc351u64 ^ (0xf512412357dfc351u64 >> 27u64)) == 0xf512413df597e73bu64
        &&& (0xf70304852c172e29u64 ^ (0xf70304852c172e29u64 >> 31u64)) == 0xf7030484c2112723u64
    }) by (bit_vector);
}

/// The mixing function on a value whose steps are known.
proof fn lemma_mix_value(z0: u64, a: u64, z1: u64, b: u64, z2: u64, r: u64)
    requires
        z0 ^ (z0 >> 30u64) == a,
        wmul(a, MIX1) == z1,
        z1 ^ (z1 >> 27u64) == b,
        wmul(b, MIX2) == z2,
        z2 ^ (z2 >> 31u64) == r,
    ensures
        crate::hash::mix(z0) == r,
{
}

/// The castling key of `c`, given the values its mixing passes through.
proof fn lemma_castling_key_at(c: u8, z0: u64, a: u64, z1: u64, b: u64, z2: u64, r: u64)
    requires
        c < 16,
        wmul((771 + c) as u64, GAMMA) == z0,
        z0 ^ (z0 >> 30u64) == a,
        wmul(a, MIX1) == z1,
        z1 ^ (z1 >> 27u64) == b,
        wmul(b, MIX2) == z2,
        z2 ^ (z2 >> 31u64) == r,
    ensures
        castling_key(c) == r,
{
    lemma_mix_value(z0, a, z1, b, z2, r);
}

proof fn lemma_castling_key_value_0(c: u8)
    requires
        0 <= c < 4,
    ensures
        castling_key(c) == castling_key_table(c),
{
    lemma_castling_mix_steps();
    if c == 0 {
        lemma_castling_key_at(c, 0x811399aa5d53b33fu64, 0x811399a8591dd596u64, 0xa0cccf2cb8368766u64, 0xa0cccf38a1af62f1u64, 0xe9bff1ade4b2d43bu64, 0xe9bff1ac37cd3760u64);
    } else if c == 1 {
        lemma_castling_key_at(c, 0x1f4b1363dc9e2f54u64, 0x1f4b1363a1b262dbu64, 0xa2ab7c936b635743u64, 0xa2ab7c873e0cc52eu64, 0x5b1c44f2f69f0f3au64, 0x5b1c44f240a786dfu64);
    } else if c == 2 {
        lemma_castling_key_at(c, 0xbd828d1d5be8ab69u64, 0xbd828d1fade29f1cu64, 0x5c0f7c992609073cu64, 0x5c0f7c92a7e69418u64, 0xdd2e5d6e91178a08u64, 0xdd2e5d6f2b4b30d5u64);
    } else if c == 3 {
        lemma_castling_key_at(c, 0x5bba06d6db33277eu64, 0x5bba06d7b5db3c25u64, 0xe54eb826252f8fbdu64, 0xe54eb83a8cf88b79u64, 0x74cdd16b96941113u64, 0x74cdd16b7f0fb3c4u64);
    }
}

proof fn lemma_castling_key_value_1(c: u8)
    requires
        4 <= c < 8,
    ensures
        castling_key(c) == castling_key_table(c),
{
    lemma_castling_mix_steps();
    if c == 4 {
        lemma_castling_key_at(c, 0xf9f180905a7da393u64, 0xf9f18093bdbba1d2u64, 0x74d4b8b60b60cac2u64, 0x74d4b8b891f7dc03u64, 0x39edba15c9b629c1u64, 0x39edba15ba6d5deau64);
    } else if c == 5 {
        lemma_castling_key_at(c, 0x9828fa49d9c81fa8u64, 0x9828fa4bb96bf68fu64, 0x27bd3498cdef1857u64, 0x27bd349c3a498b4eu64, 0x893a48acd7b10e9au64, 0x893a48adc5c59fc3u64);
    } else if c == 6 {
        lemma_castling_key_at(c, 0x3660740359129bbdu64, 0x3660740380934bb0u64, 0x35dea1f255e62230u64, 0x35dea1f4ee321c7au64, 0x5d88d67a7d3e3dfeu64, 0x5d88d67ac62f910au64);
    } else if c == 7 {
        lemma_castling_key_at(c, 0xd497edbcd85d17d2u64, 0xd497edbf8a02a121u64, 0xbb4d1be3336cf5d9u64, 0xbb4d1bf45acf89bfu64, 0x6637c1ceaf382155u64, 0x6637c1ce6357a2c8u64);
    }
}

proof fn lemma_castling_key_value_2(c: u8)
    requires
        8 <= c < 12,
    ensures
        castling_key(c) == castling_key_table(c),
{
    lemma_castling_mix_steps();
    if c == 8 {
        lemma_castling_key_at(c, 0x72cf677657a793e7u64, 0x72cf67779c9a0e3eu64, 0x49f359af7149c0ceu64, 0x49f359a64f22f520u64, 0xfc7b432e427e2460u64, 0xfc7b432fba88a23cu64);
    } else if c == 9 {
        lemma_castling_key_at(c, 0x1106e12fd6f20ffcu64, 0x1106e12f92e98b43u64, 0x66f08d8e7004926bu64, 0x66f08d82ae1523a5u64, 0xcbd18ebd465aad77u64, 0xcbd18ebcd1f9b00du64);
    } else if c == 10 {
        lemma_castling_key_at(c, 0xaf3e5ae9563c8c11u64, 0xaf3e5aebeac5e7b4u64, 0xfe960ebdbd987514u64, 0xfe960ea26f59a2a3u64, 0xcc5d77cc65481ea1u64, 0xcc5d77cdfdf2f139u64);
    } else if c == 11 {
        lemma_castling_key_at(c, 0x4d75d4a2d5870826u64, 0x4d75d4a3e0505aadu64, 0xb9ae6a39a9424805u64, 0xb9ae6a2e9c8f0f30u64, 0xf87eec1af852110u64, 0xf87eec1b08afc93u64);
    }
}

proof fn lemma_castling_key_value_3(c: u8)
    requires
        12 <= c < 16,
    ensures
        castling_key(c) == castling_key_table(c),
{
    lemma_castling_mix_steps();
    if c == 12 {
        lemma_castling_key_at(c, 0xebad4e5c54d1843bu64, 0xebad4e5ffa64bd4au64, 0x790ba346be07fc7au64, 0x790ba3499f7394adu64, 0xdad6d0b35815f7cfu64, 0xdad6d0b2edb856a9u64);
    } else if c == 13 {
        lemma_castling_key_at(c, 0x89e4c815d41c0050u64, 0x89e4c817f38f2007u64, 0xc2852d225450680fu64, 0xc2852d3a04f5cc45u64, 0xf196733318681857u64, 0xf1967332fb44fe31u64);
    } else if c == 14 {
        lemma_castling_key_at(c, 0x281c41cf53667c65u64, 0x281c41cff3177b58u64, 0xb18a929a27adda98u64, 0xb18a928c16ff89dcu64, 0x7e2ea1f8cbd728f4u64, 0x7e2ea1f8378a6b05u64);
    } else if c == 15 {
        lemma_castling_key_at(c, 0xc653bb88d2b0f87au64, 0xc653bb8bcbfe1659u64, 0xf512412357dfc351u64, 0xf512413df597e73bu64, 0xf70304852c172e29u64, 0xf7030484c2112723u64);
    }
}

proof fn lemma_castling_key_value(c: u8)
    requires
        c < 16,
    ensures
        castling_key(c) == castling_key_table(c),
{
    if c < 4 {
        lemma_castling_key_value_0(c);
    } else if c < 8 {
        lemma_castling_key_value_1(c);
    } else if c < 12 {
        lemma_castling_key_value_2(c);
    } else {
        lemma_castling_key_value_3(c);
    }
}

/// The keys of two different sets of castling rights differ.
proof fn lemma_castling_keys_distinct(a: u8, b: u8)
    requires
        a < 16,
        b < 16,
        a != b,
    ensures
        castling_key(a) != castling_key(b),
{
    lemma_castling_key_value(a);
    lemma_castling_key_value(b);
}

/// Castling rights are part of a position's identity: two positions that differ only in
/// their castling rights have different repetition keys and different transposition keys.
pub proof fn lemma_castling_rights_change_the_keys(v: PositionView, c: u8)
    requires
        v.castling < 16,
        c < 16,
        c != v.castling,
    ensures
        board_key(PositionView { castling: c, ..v }) != board_key(v),
        position_key(PositionView { castling: c, ..v }) != position_key(v),
{
    let w = PositionView { castling: c, ..v };
    assert forall|from: int, t: int, cap: int, k: int|
        #[trigger] en_passant_capture_is_safe(w, from, t, cap, k) == en_passant_capture_is_safe(
            v,
            from,
            t,
            cap,
            k,
        ) by {}
    assert forall|t: int, cap: int, k: int|
        #[trigger] has_safe_en_passant_capture(w, t, cap, k) == has_safe_en_passant_capture(v, t, cap, k) by {
        if has_safe_en_passant_capture(w, t, cap, k) {
            let f = choose|f: int| #[trigger] en_passant_capture_is_safe(w, f, t, cap, k);
            assert(en_passant_capture_is_safe(v, f, t, cap, k));
        }
        if has_safe_en_passant_capture(v, t, cap, k) {
            let f = choose|f: int| #[trigger] en_passant_capture_is_safe(v, f, t, cap, k);
            assert(en_passant_capture_is_safe(w, f, t, cap, k));
        }
    }
    assert(legal_en_passant(w) == legal_en_passant(v));
    lemma_castling_keys_distinct(c, v.castling);
    let k1 = castling_key(c);
    let k2 = castling_key(v.castling);
    let p = crate::hash::pieces_key(v.board, 64);
    let s = if v.side == Color::Black {
        crate::hash::side_key()
    } else {
        0u64
    };
    let e = match legal_en_passant(v) {
        Some(t) => crate::hash::en_passant_key(crate::bitboard::file_of(t@)),
        None => 0u64,
    };
    let h = wmul(v.halfmove as u64, crate::hash::CLOCK_MULTIPLIER);
    assert(board_key(w) == k1 ^ p ^ s ^ e);
    assert(board_key(v) == k2 ^ p ^ s ^ e);
    assert(k1 != k2 ==> (k1 ^ p ^ s ^ e) != (k2 ^ p ^ s ^ e) && (k1 ^ p ^ s ^ e) ^ h != (k2 ^ p ^ s ^ e)
        ^ h) by (bit_vector);
}

/// The side to move is part of a position's identity: with no en-passant square, the same
/// position with the other side to move has a different repetition key.
pub proof fn lemma_side_to_move_changes_the_key(v: PositionView)
    requires
        v.en_passant is None,
    ensures
        board_key(PositionView { side: v.side.spec_opposite(), ..v }) != board_key(v),
{
    let w = PositionView { side: v.side.spec_opposite(), ..v };
    assert(0xe2dc1ff0de09372au64 ^ (0xe2dc1ff0de09372au64 >> 30u64) == 0xe2dc1ff3557948e9u64 && 0xdaadd081ae621d61u64 ^ (0xdaadd081ae621d61u64 >> 27u64)
        == 0xdaadd09afbd80d54u64 && 0xada2b6b2514ad01cu64 ^ (0xada2b6b2514ad01cu64 >> 31u64) == 0xada2b6b30a0fbd78u64) by (bit_vector);
    assert(wmul(770u64, GAMMA) == 0xe2dc1ff0de09372au64);
    assert(wmul(0xe2dc1ff3557948e9u64, MIX1) == 0xdaadd081ae621d61u64);
    assert(wmul(0xdaadd09afbd80d54u64, MIX2) == 0xada2b6b2514ad01cu64);
    lemma_mix_value(0xe2dc1ff0de09372au64, 0xe2dc1ff3557948e9u64, 0xdaadd081ae621d61u64, 0xdaadd09afbd80d54u64, 0xada2b6b2514ad01cu64, 0xada2b6b30a0fbd78u64);
    let sk = crate::hash::side_key();
    assert(sk != 0);
    let base = castling_key(v.castling) ^ crate::hash::pieces_key(v.board, 64);
    assert(legal_en_passant(v) is None && legal_en_passant(w) is None);
    assert(sk != 0 ==> (base ^ sk) ^ 0u64 != (base ^ 0u64) ^ 0u64) by (bit_vector);
    if v.side == Color::Black {
        assert(board_key(v) == (base ^ sk) ^ 0u64);
        assert(board_key(w) == (base ^ 0u64) ^ 0u64);
    } else {
        assert(board_key(w) == (base ^ sk) ^ 0u64);
        assert(board_key(v) == (base ^ 0u64) ^ 0u64);
    }
}

// ---------------------------------------------------------------------------------------
// The fifty-move rule and the end of the game.
// ---------------------------------------------------------------------------------------

/// The fifty-move rule applies from a halfmove clock of 100 on (fifty moves by each side):
/// the search scores such a position with legal moves as a draw, and the browser game
/// ends there as a fifty-move draw unless dead material ended it first. Below 100, with
/// legal moves, enough material and no threefold repetition, neither treats it as over.
pub proof fn lemma_fifty_move_boundary(v: PositionView, path: Seq<u64>, history: Seq<u64>, ply: int)
    requires
        legal_seq(v).len() > 0,
        !insufficient_material(v.board),
    ensures
        v.halfmove >= 100 ==> settled_value(v, path, ply) == Some(0int),
        v.halfmove >= 100 ==> game_status(v, history) == Some("Draw — fifty-move rule."@),
        v.halfmove < 100 && (path.len() == 0 || !occurs_thrice(path, path.last())) ==> settled_value(
            v,
            path,
            ply,
        ) is None,
        v.halfmove < 100 && !occurs_thrice(history, board_key(v)) ==> game_status(v, history) is None,
{
    lemma_search_repetition_is_threefold(path);
    lemma_occurrence_counts(history, board_key(v));
}

/// A game with no legal move is over: checkmate (won by the other side) when the side to
/// move is in check, stalemate otherwise, whatever the history or the clock say.
pub proof fn lemma_no_legal_move_ends_the_game(v: PositionView, history: Seq<u64>, path: Seq<u64>, ply: int)
    requires
        legal_seq(v).len() == 0,
    ensures
        crate::movegen::is_in_check(v, v.side) && v.side == Color::White ==> game_status(v, history)
            == Some("Checkmate — Black wins."@),
        crate::movegen::is_in_check(v, v.side) && v.side == Color::Black ==> game_status(v, history)
            == Some("Checkmate — White wins."@),
        !crate::movegen::is_in_check(v, v.side) ==> game_status(v, history) == Some("Draw — stalemate."@),
        settled_value(v, path, ply) == Some(
            if crate::movegen::is_in_check(v, v.side) {
                ply - crate::search::MATE
            } else {
                0
            },
        ),
{
}

// ---------------------------------------------------------------------------------------
// Threefold repetition.
// ---------------------------------------------------------------------------------------

/// `k` stands at some position of `s`.
pub open spec fn occurs_once(s: Seq<u64>, k: u64) -> bool {
    exists|i: int| 0 <= i < s.len() && #[trigger] s[i] == k
}

/// `k` stands at two different positions of `s`.
pub open spec fn occurs_twice(s: Seq<u64>, k: u64) -> bool {
    exists|i: int, j: int| 0 <= i < j < s.len() && #[trigger] s[i] == k && #[trigger] s[j] == k
}

/// `k` stands at three different positions of `s`.
pub open spec fn occurs_thrice(s: Seq<u64>, k: u64) -> bool {
    exists|i: int, j: int, l: int|
        0 <= i < j < l < s.len() && #[trigger] s[i] == k && #[trigger] s[j] == k && #[trigger] s[l] == k
}

/// Counting occurrences agrees with finding them at different positions.
pub proof fn lemma_occurrence_counts(s: Seq<u64>, k: u64)
    ensures
        (occurrences(s, k) >= 1) == occurs_once(s, k),
        (occurrences(s, k) >= 2) == occurs_twice(s, k),
        (occurrences(s, k) >= 3) == occurs_thrice(s, k),
    decreases s.len(),
{
    if s.len() > 0 {
        let pre = s.drop_last();
        let n = s.len() - 1;
        lemma_occurrence_counts(pre, k);
        // Witnesses in the prefix are witnesses in `s`.
        if occurs_once(pre, k) {
            let i = choose|i: int| 0 <= i < pre.len() && #[trigger] pre[i] == k;
            assert(s[i] == k);
        }
        if occurs_twice(pre, k) {
            let (i, j) = choose|i: int, j: int| 0 <= i < j < pre.len() && #[trigger] pre[i] == k && #[trigger] pre[j] == k;
            assert(s[i] == k && s[j] == k);
            if s[n] == k {
                assert(s[i] == k && s[j] == k && s[n] == k);
            }
        }
        if occurs_thrice(pre, k) {
            let (i, j, l) = choose|i: int, j: int, l: int|
                0 <= i < j < l < pre.len() && #[trigger] pre[i] == k && #[trigger] pre[j] == k && #[trigger] pre[l] == k;
            assert(s[i] == k && s[j] == k && s[l] == k);
        }
        if s[n] == k {
            assert(s[n] == k);
            if occurs_once(pre, k) {
                let i = choose|i: int| 0 <= i < pre.len() && #[trigger] pre[i] == k;
                assert(s[i] == k && s[n] == k);
            }
        }
        // Witnesses in `s` give witnesses in the prefix, or use the last position.
        if occurs_once(s, k) {
            let i = choose|i: int| 0 <= i < s.len() && #[trigger] s[i] == k;
            if i < n {
                assert(pre[i] == k);
            }
        }
        if occurs_twice(s, k) {
            let (i, j) = choose|i: int, j: int| 0 <= i < j < s.len() && #[trigger] s[i] == k && #[trigger] s[j] == k;
            assert(pre[i] == k);
            if j < n {
                assert(pre[j] == k);
            }
        }
        if occurs_thrice(s, k) {
            let (i, j, l) = choose|i: int, j: int, l: int|
                0 <= i < j < l < s.len() && #[trigger] s[i] == k && #[trigger] s[j] == k && #[trigger] s[l] == k;
            assert(pre[i] == k && pre[j] == k);
            if l < n {
                assert(pre[l] == k);
            }
        }
    }
}

/// The search counts a repetition only at a third occurrence: a path is repeated exactly
/// when its last key stands at three different positions of it.
pub proof fn lemma_search_repetition_is_threefold(path: Seq<u64>)
    ensures
        is_repeated(path) == (path.len() > 0 && occurs_thrice(path, path.last())),
{
    if path.len() > 0 {
        lemma_occurrence_counts(path, path.last());
    }
}

/// A position with legal moves, enough material and a halfmove clock below 100, whose key
/// stands at no three different positions of its repetition path (for example one that has
/// occurred twice), needs a search: the search does not settle it as a draw.
pub proof fn lemma_second_occurrence_is_searched(v: PositionView, path: Seq<u64>, ply: int)
    requires
        legal_seq(v).len() > 0,
        !insufficient_material(v.board),
        v.halfmove < 100,
        path.len() > 0,
        !occurs_thrice(path, path.last()),
    ensures
        settled_value(v, path, ply) is None,
{
    lemma_search_repetition_is_threefold(path);
}

/// The browser game ends in a repetition draw only at a third occurrence: for a position with
/// legal moves, enough material and a halfmove clock below 100, the game goes on exactly when
/// its key stands at no three different positions of the game's history, and otherwise it is
/// the threefold-repetition draw.
pub proof fn lemma_game_repetition_is_threefold(v: PositionView, history: Seq<u64>)
    requires
        legal_seq(v).len() > 0,
        !insufficient_material(v.board),
        v.halfmove < 100,
    ensures
        (game_status(v, history) is None) == !occurs_thrice(history, board_key(v)),
        game_status(v, history) is Some ==> game_status(v, history) == Some(
            "Draw — threefold repetition."@,
        ),
{
    lemma_occurrence_counts(history, board_key(v));
}

// ---------------------------------------------------------------------------------------
// UCI promotion letters.
// ---------------------------------------------------------------------------------------

/// A UCI promotion letter is the FEN letter of the piece promoted to: writing a promotion
/// gives the lower-case letter of that piece, and reading either case of the letter gives
/// the promotion back, also inside a whole move's text.
pub proof fn lemma_promotion_letters(p: Promotion, c: Color, from: Square, to: Square)
    requires
        from@ < 64,
        to@ < 64,
    ensures
        promotion_char(p) == piece_char(promoted_piece(Color::Black, p)),
        promotion_of_char(piece_char(promoted_piece(c, p))) == Some(p),
        uci_text(Move { from, to, promotion: Some(p) }).last() == piece_char(promoted_piece(Color::Black, p)),
        uci_move_of(square_name(from@) + square_name(to@) + seq![piece_char(promoted_piece(c, p))])
            == Some(Move { from, to, promotion: Some(p) }),
{
    let t = square_name(from@) + square_name(to@) + seq![piece_char(promoted_piece(c, p))];
    lemma_name_round_trip(from);
    lemma_name_round_trip(to);
    assert(t.subrange(0, 2) =~= square_name(from@));
    assert(t.subrange(2, 4) =~= square_name(to@));
}

} // verus!
