//! Facts about the individual bits of a 64-bit bitboard.
use vstd::prelude::*;

verus! {

/// Whether bit `i` (0 = a1, 63 = h8) of `b` is set.
pub open spec fn bit(b: u64, i: int) -> bool {
    0 <= i < 64 && ((b >> (i as u64)) & 1u64) == 1u64
}

pub proof fn lemma_bit_or(a: u64, b: u64, i: int)
    ensures
        bit(a | b, i) == (bit(a, i) || bit(b, i)),
{
    if 0 <= i < 64 {
        let k = i as u64;
        assert((((a | b) >> k) & 1u64 == 1u64) == (((a >> k) & 1u64 == 1u64) || ((b >> k) & 1u64
            == 1u64))) by (bit_vector)
            requires
                k < 64,
        ;
    }
}

pub proof fn lemma_bit_and(a: u64, b: u64, i: int)
    ensures
        bit(a & b, i) == (bit(a, i) && bit(b, i)),
{
    if 0 <= i < 64 {
        let k = i as u64;
        assert((((a & b) >> k) & 1u64 == 1u64) == (((a >> k) & 1u64 == 1u64) && ((b >> k) & 1u64
            == 1u64))) by (bit_vector)
            requires
                k < 64,
        ;
    }
}

pub proof fn lemma_bit_not(a: u64, i: int)
    ensures
        0 <= i < 64 ==> bit(!a, i) == !bit(a, i),
{
    if 0 <= i < 64 {
        let k = i as u64;
        assert((((!a) >> k) & 1u64 == 1u64) == !((a >> k) & 1u64 == 1u64)) by (bit_vector)
            requires
                k < 64,
        ;
    }
}

pub proof fn lemma_bit_single(j: u64, i: int)
    requires
        j < 64,
    ensures
        bit(1u64 << j, i) == (i == j),
{
    if 0 <= i < 64 {
        let k = i as u64;
        assert((((1u64 << j) >> k) & 1u64 == 1u64) == (k == j)) by (bit_vector)
            requires
                k < 64,
                j < 64,
        ;
    }
}

pub proof fn lemma_bit_zero(i: int)
    ensures
        !bit(0u64, i),
{
    if 0 <= i < 64 {
        let k = i as u64;
        assert(((0u64 >> k) & 1u64) == 0u64) by (bit_vector);
    }
}

/// A bitboard with no set bit is zero.
pub proof fn lemma_zero_from_bits(x: u64)
    requires
        forall|i: int| 0 <= i < 64 ==> !#[trigger] bit(x, i),
    ensures
        x == 0,
    decreases x,
{
    if x != 0 {
        assert(!bit(x, 0));
        let y = x >> 1u64;
        assert(y < x) by (bit_vector)
            requires
                x != 0,
                y == x >> 1u64,
        ;
        assert forall|i: int| 0 <= i < 64 implies !#[trigger] bit(y, i) by {
            let k = i as u64;
            if i < 63 {
                assert(!bit(x, i + 1));
                let k1 = (i + 1) as u64;
                assert(((y >> k) & 1u64) == ((x >> k1) & 1u64)) by (bit_vector)
                    requires
                        y == x >> 1u64,
                        k < 63,
                        k1 == k + 1,
                ;
            } else {
                assert(((y >> k) & 1u64) == 0u64) by (bit_vector)
                    requires
                        y == x >> 1u64,
                        k == 63,
                ;
            }
        }
        lemma_zero_from_bits(y);
        assert(x == 0) by (bit_vector)
            requires
                (x >> 0u64) & 1u64 != 1u64,
                x >> 1u64 == 0u64,
        ;
    }
}

/// Two bitboards with the same bits are equal.
pub proof fn lemma_bits_ext(a: u64, b: u64)
    requires
        forall|i: int| 0 <= i < 64 ==> bit(a, i) == bit(b, i),
    ensures
        a == b,
{
    assert forall|i: int| 0 <= i < 64 implies !#[trigger] bit(a ^ b, i) by {
        let k = i as u64;
        assert(bit(a, i) == bit(b, i));
        assert((((a ^ b) >> k) & 1u64 == 1u64) == (((a >> k) & 1u64 == 1u64) != ((b >> k) & 1u64
            == 1u64))) by (bit_vector)
            requires
                k < 64,
        ;
    }
    lemma_zero_from_bits(a ^ b);
    assert(a == b) by (bit_vector)
        requires
            a ^ b == 0u64,
    ;
}

/// A bitboard is nonzero exactly when some bit is set.
pub proof fn lemma_nonzero_has_bit(x: u64)
    ensures
        x != 0 <==> exists|i: int| 0 <= i < 64 && #[trigger] bit(x, i),
{
    if x != 0 {
        if !(exists|i: int| 0 <= i < 64 && #[trigger] bit(x, i)) {
            lemma_zero_from_bits(x);
        }
    } else {
        assert forall|i: int| 0 <= i < 64 implies !#[trigger] bit(x, i) by {
            lemma_bit_zero(i);
        }
    }
}

} // verus!
