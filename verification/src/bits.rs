//! Bit-level helpers: spreading a 32-bit word over the even bits of a 64-bit word,
//! interleaving two words and squashing them apart again.
use vstd::prelude::*;

verus! {

/// Bit `i` (counted from the least significant bit) of a 64-bit word.
pub open spec fn bit64(v: u64, i: u64) -> bool {
    (v >> i) & 1 == 1
}

/// Bit `i` of a 32-bit word.
pub open spec fn bit32(v: u32, i: u64) -> bool {
    bit64(v as u64, i)
}

/// `w` carries the bits of `x` on its even positions and those of `y` on its odd ones.
pub open spec fn interleaves(w: u64, x: u32, y: u32) -> bool {
    forall|p: u64|
        p < 64 ==> #[trigger] bit64(w, p) == if p % 2 == 0 {
            bit32(x, p / 2)
        } else {
            bit32(y, p / 2)
        }
}

/// `parts.0` holds the even bits of `w` and `parts.1` its odd bits.
pub open spec fn splits(w: u64, parts: (u32, u32)) -> bool {
    &&& forall|i: u64| i < 32 ==> #[trigger] bit32(parts.0, i) == bit64(w, (2 * i) as u64)
    &&& forall|i: u64| i < 32 ==> #[trigger] bit32(parts.1, i) == bit64(w, (2 * i + 1) as u64)
}

spec fn spread_word(x: u32) -> u64 {
    let a = x as u64;
    let a = (a | (a << 16u64)) & 0x0000ffff0000ffffu64;
    let a = (a | (a << 8u64)) & 0x00ff00ff00ff00ffu64;
    let a = (a | (a << 4u64)) & 0x0f0f0f0f0f0f0f0fu64;
    let a = (a | (a << 2u64)) & 0x3333333333333333u64;
    (a | (a << 1u64)) & 0x5555555555555555u64
}

proof fn lemma_spread_word_bit(x: u32, p: u64)
    by (bit_vector)
    requires
        p < 64,
    ensures
        bit64(spread_word(x), p) == (p % 2 == 0 && bit64(x as u64, p / 2)),
{
}

/// Deposits the bits of `x` into the even bit positions of a 64-bit word.
pub fn spread(x: u32) -> (r: u64)
    ensures
        forall|p: u64| p < 64 ==> #[trigger] bit64(r, p) == (p % 2 == 0 && bit32(x, p / 2)),
{
    let mut new_x = x as u64;
    new_x = (new_x | (new_x << 16)) & 0x0000ffff0000ffff;
    new_x = (new_x | (new_x << 8)) & 0x00ff00ff00ff00ff;
    new_x = (new_x | (new_x << 4)) & 0x0f0f0f0f0f0f0f0f;
    new_x = (new_x | (new_x << 2)) & 0x3333333333333333;
    new_x = (new_x | (new_x << 1)) & 0x5555555555555555;
    assert(new_x == spread_word(x));
    assert forall|p: u64| p < 64 implies #[trigger] bit64(new_x, p) == (p % 2 == 0 && bit32(x, p / 2)) by {
        lemma_spread_word_bit(x, p);
    }
    new_x
}


proof fn lemma_or_shifted_bit(a: u64, b: u64, p: u64)
    by (bit_vector)
    requires
        p < 64,
    ensures
        bit64(a | (b << 1u64), p) == (bit64(a, p) || (p > 0 && bit64(b, (p - 1) as u64))),
{
}

/// Combines two 32-bit words into one 64-bit word: the bits of `x` land on the even
/// positions and the bits of `y` on the odd ones.
pub fn interleave(x: u32, y: u32) -> (r: u64)
    ensures
        interleaves(r, x, y),
{
    let sx = spread(x);
    let sy = spread(y);
    let r = sx | (sy << 1);
    assert forall|p: u64| p < 64 implies #[trigger] bit64(r, p) == if p % 2 == 0 {
        bit32(x, p / 2)
    } else {
        bit32(y, p / 2)
    } by {
        lemma_or_shifted_bit(sx, sy, p);
        assert(bit64(sx, p) == (p % 2 == 0 && bit32(x, p / 2)));
        if p > 0 {
            assert(bit64(sy, (p - 1) as u64) == ((p - 1) as u64 % 2 == 0 && bit32(y, ((p - 1) as u64) / 2)));
        }
    }
    r
}

spec fn squash_word(x: u64) -> u32 {
    let a = x & 0x5555555555555555u64;
    let a = (a | (a >> 1u64)) & 0x3333333333333333u64;
    let a = (a | (a >> 2u64)) & 0x0f0f0f0f0f0f0f0fu64;
    let a = (a | (a >> 4u64)) & 0x00ff00ff00ff00ffu64;
    let a = (a | (a >> 8u64)) & 0x0000ffff0000ffffu64;
    let a = (a | (a >> 16u64)) & 0x00000000ffffffffu64;
    a as u32
}

proof fn lemma_squash_word_bit(x: u64, i: u64)
    by (bit_vector)
    requires
        i < 32,
    ensures
        bit64(squash_word(x) as u64, i) == bit64(x, (2 * i) as u64),
{
}

/// Gathers the even bits of a 64-bit word into a 32-bit word.
pub fn squash(x: u64) -> (r: u32)
    ensures
        forall|i: u64| i < 32 ==> #[trigger] bit32(r, i) == bit64(x, (2 * i) as u64),
{
    let mut new_x = x & 0x5555555555555555;
    new_x = (new_x | (new_x >> 1)) & 0x3333333333333333;
    new_x = (new_x | (new_x >> 2)) & 0x0f0f0f0f0f0f0f0f;
    new_x = (new_x | (new_x >> 4)) & 0x00ff00ff00ff00ff;
    new_x = (new_x | (new_x >> 8)) & 0x0000ffff0000ffff;
    new_x = (new_x | (new_x >> 16)) & 0x00000000ffffffff;
    let r = new_x as u32;
    assert(r == squash_word(x));
    assert forall|i: u64| i < 32 implies #[trigger] bit32(r, i) == bit64(x, (2 * i) as u64) by {
        lemma_squash_word_bit(x, i);
    }
    r
}

proof fn lemma_shr1_bit(x: u64, p: u64)
    by (bit_vector)
    requires
        p < 63,
    ensures
        bit64(x >> 1u64, p) == bit64(x, (p + 1) as u64),
{
}

/// Splits a 64-bit word into its even bits and its odd bits; the inverse of [`interleave`].
pub fn deinterleave(x: u64) -> (r: (u32, u32))
    ensures
        splits(x, r),
{
    let even = squash(x);
    let odd = squash(x >> 1);
    assert forall|i: u64| i < 32 implies #[trigger] bit32(odd, i) == bit64(x, (2 * i + 1) as u64) by {
        assert(bit32(odd, i) == bit64(x >> 1, (2 * i) as u64));
        lemma_shr1_bit(x, (2 * i) as u64);
    }
    (even, odd)
}


/// Two 32-bit words with the same bits are equal.
pub proof fn lemma_bits_eq32(a: u32, b: u32)
    requires
        forall|i: u64| i < 32 ==> #[trigger] bit32(a, i) == bit32(b, i),
    ensures
        a == b,
{
    assert(bit32(a, 0u64) == bit32(b, 0u64));
    assert(bit32(a, 1u64) == bit32(b, 1u64));
    assert(bit32(a, 2u64) == bit32(b, 2u64));
    assert(bit32(a, 3u64) == bit32(b, 3u64));
    assert(bit32(a, 4u64) == bit32(b, 4u64));
    assert(bit32(a, 5u64) == bit32(b, 5u64));
    assert(bit32(a, 6u64) == bit32(b, 6u64));
    assert(bit32(a, 7u64) == bit32(b, 7u64));
    assert(bit32(a, 8u64) == bit32(b, 8u64));
    assert(bit32(a, 9u64) == bit32(b, 9u64));
    assert(bit32(a, 10u64) == bit32(b, 10u64));
    assert(bit32(a, 11u64) == bit32(b, 11u64));
    assert(bit32(a, 12u64) == bit32(b, 12u64));
    assert(bit32(a, 13u64) == bit32(b, 13u64));
    assert(bit32(a, 14u64) == bit32(b, 14u64));
    assert(bit32(a, 15u64) == bit32(b, 15u64));
    assert(bit32(a, 16u64) == bit32(b, 16u64));
    assert(bit32(a, 17u64) == bit32(b, 17u64));
    assert(bit32(a, 18u64) == bit32(b, 18u64));
    assert(bit32(a, 19u64) == bit32(b, 19u64));
    assert(bit32(a, 20u64) == bit32(b, 20u64));
    assert(bit32(a, 21u64) == bit32(b, 21u64));
    assert(bit32(a, 22u64) == bit32(b, 22u64));
    assert(bit32(a, 23u64) == bit32(b, 23u64));
    assert(bit32(a, 24u64) == bit32(b, 24u64));
    assert(bit32(a, 25u64) == bit32(b, 25u64));
    assert(bit32(a, 26u64) == bit32(b, 26u64));
    assert(bit32(a, 27u64) == bit32(b, 27u64));
    assert(bit32(a, 28u64) == bit32(b, 28u64));
    assert(bit32(a, 29u64) == bit32(b, 29u64));
    assert(bit32(a, 30u64) == bit32(b, 30u64));
    assert(bit32(a, 31u64) == bit32(b, 31u64));
    assert(a == b) by (bit_vector)
        requires
            bit64(a as u64, 0u64) == bit64(b as u64, 0u64),
            bit64(a as u64, 1u64) == bit64(b as u64, 1u64),
            bit64(a as u64, 2u64) == bit64(b as u64, 2u64),
            bit64(a as u64, 3u64) == bit64(b as u64, 3u64),
            bit64(a as u64, 4u64) == bit64(b as u64, 4u64),
            bit64(a as u64, 5u64) == bit64(b as u64, 5u64),
            bit64(a as u64, 6u64) == bit64(b as u64, 6u64),
            bit64(a as u64, 7u64) == bit64(b as u64, 7u64),
            bit64(a as u64, 8u64) == bit64(b as u64, 8u64),
            bit64(a as u64, 9u64) == bit64(b as u64, 9u64),
            bit64(a as u64, 10u64) == bit64(b as u64, 10u64),
            bit64(a as u64, 11u64) == bit64(b as u64, 11u64),
            bit64(a as u64, 12u64) == bit64(b as u64, 12u64),
            bit64(a as u64, 13u64) == bit64(b as u64, 13u64),
            bit64(a as u64, 14u64) == bit64(b as u64, 14u64),
            bit64(a as u64, 15u64) == bit64(b as u64, 15u64),
            bit64(a as u64, 16u64) == bit64(b as u64, 16u64),
            bit64(a as u64, 17u64) == bit64(b as u64, 17u64),
            bit64(a as u64, 18u64) == bit64(b as u64, 18u64),
            bit64(a as u64, 19u64) == bit64(b as u64, 19u64),
            bit64(a as u64, 20u64) == bit64(b as u64, 20u64),
            bit64(a as u64, 21u64) == bit64(b as u64, 21u64),
            bit64(a as u64, 22u64) == bit64(b as u64, 22u64),
            bit64(a as u64, 23u64) == bit64(b as u64, 23u64),
            bit64(a as u64, 24u64) == bit64(b as u64, 24u64),
            bit64(a as u64, 25u64) == bit64(b as u64, 25u64),
            bit64(a as u64, 26u64) == bit64(b as u64, 26u64),
            bit64(a as u64, 27u64) == bit64(b as u64, 27u64),
            bit64(a as u64, 28u64) == bit64(b as u64, 28u64),
            bit64(a as u64, 29u64) == bit64(b as u64, 29u64),
            bit64(a as u64, 30u64) == bit64(b as u64, 30u64),
            bit64(a as u64, 31u64) == bit64(b as u64, 31u64),
    ;
}

/// Two 64-bit words with the same bits are equal.
pub proof fn lemma_bits_eq64(a: u64, b: u64)
    requires
        forall|i: u64| i < 64 ==> #[trigger] bit64(a, i) == bit64(b, i),
    ensures
        a == b,
{
    assert(bit64(a, 0u64) == bit64(b, 0u64));
    assert(bit64(a, 1u64) == bit64(b, 1u64));
    assert(bit64(a, 2u64) == bit64(b, 2u64));
    assert(bit64(a, 3u64) == bit64(b, 3u64));
    assert(bit64(a, 4u64) == bit64(b, 4u64));
    assert(bit64(a, 5u64) == bit64(b, 5u64));
    assert(bit64(a, 6u64) == bit64(b, 6u64));
    assert(bit64(a, 7u64) == bit64(b, 7u64));
    assert(bit64(a, 8u64) == bit64(b, 8u64));
    assert(bit64(a, 9u64) == bit64(b, 9u64));
    assert(bit64(a, 10u64) == bit64(b, 10u64));
    assert(bit64(a, 11u64) == bit64(b, 11u64));
    assert(bit64(a, 12u64) == bit64(b, 12u64));
    assert(bit64(a, 13u64) == bit64(b, 13u64));
    assert(bit64(a, 14u64) == bit64(b, 14u64));
    assert(bit64(a, 15u64) == bit64(b, 15u64));
    assert(bit64(a, 16u64) == bit64(b, 16u64));
    assert(bit64(a, 17u64) == bit64(b, 17u64));
    assert(bit64(a, 18u64) == bit64(b, 18u64));
    assert(bit64(a, 19u64) == bit64(b, 19u64));
    assert(bit64(a, 20u64) == bit64(b, 20u64));
    assert(bit64(a, 21u64) == bit64(b, 21u64));
    assert(bit64(a, 22u64) == bit64(b, 22u64));
    assert(bit64(a, 23u64) == bit64(b, 23u64));
    assert(bit64(a, 24u64) == bit64(b, 24u64));
    assert(bit64(a, 25u64) == bit64(b, 25u64));
    assert(bit64(a, 26u64) == bit64(b, 26u64));
    assert(bit64(a, 27u64) == bit64(b, 27u64));
    assert(bit64(a, 28u64) == bit64(b, 28u64));
    assert(bit64(a, 29u64) == bit64(b, 29u64));
    assert(bit64(a, 30u64) == bit64(b, 30u64));
    assert(bit64(a, 31u64) == bit64(b, 31u64));
    assert(bit64(a, 32u64) == bit64(b, 32u64));
    assert(bit64(a, 33u64) == bit64(b, 33u64));
    assert(bit64(a, 34u64) == bit64(b, 34u64));
    assert(bit64(a, 35u64) == bit64(b, 35u64));
    assert(bit64(a, 36u64) == bit64(b, 36u64));
    assert(bit64(a, 37u64) == bit64(b, 37u64));
    assert(bit64(a, 38u64) == bit64(b, 38u64));
    assert(bit64(a, 39u64) == bit64(b, 39u64));
    assert(bit64(a, 40u64) == bit64(b, 40u64));
    assert(bit64(a, 41u64) == bit64(b, 41u64));
    assert(bit64(a, 42u64) == bit64(b, 42u64));
    assert(bit64(a, 43u64) == bit64(b, 43u64));
    assert(bit64(a, 44u64) == bit64(b, 44u64));
    assert(bit64(a, 45u64) == bit64(b, 45u64));
    assert(bit64(a, 46u64) == bit64(b, 46u64));
    assert(bit64(a, 47u64) == bit64(b, 47u64));
    assert(bit64(a, 48u64) == bit64(b, 48u64));
    assert(bit64(a, 49u64) == bit64(b, 49u64));
    assert(bit64(a, 50u64) == bit64(b, 50u64));
    assert(bit64(a, 51u64) == bit64(b, 51u64));
    assert(bit64(a, 52u64) == bit64(b, 52u64));
    assert(bit64(a, 53u64) == bit64(b, 53u64));
    assert(bit64(a, 54u64) == bit64(b, 54u64));
    assert(bit64(a, 55u64) == bit64(b, 55u64));
    assert(bit64(a, 56u64) == bit64(b, 56u64));
    assert(bit64(a, 57u64) == bit64(b, 57u64));
    assert(bit64(a, 58u64) == bit64(b, 58u64));
    assert(bit64(a, 59u64) == bit64(b, 59u64));
    assert(bit64(a, 60u64) == bit64(b, 60u64));
    assert(bit64(a, 61u64) == bit64(b, 61u64));
    assert(bit64(a, 62u64) == bit64(b, 62u64));
    assert(bit64(a, 63u64) == bit64(b, 63u64));
    assert(a == b) by (bit_vector)
        requires
            bit64(a, 0u64) == bit64(b, 0u64),
            bit64(a, 1u64) == bit64(b, 1u64),
            bit64(a, 2u64) == bit64(b, 2u64),
            bit64(a, 3u64) == bit64(b, 3u64),
            bit64(a, 4u64) == bit64(b, 4u64),
            bit64(a, 5u64) == bit64(b, 5u64),
            bit64(a, 6u64) == bit64(b, 6u64),
            bit64(a, 7u64) == bit64(b, 7u64),
            bit64(a, 8u64) == bit64(b, 8u64),
            bit64(a, 9u64) == bit64(b, 9u64),
            bit64(a, 10u64) == bit64(b, 10u64),
            bit64(a, 11u64) == bit64(b, 11u64),
            bit64(a, 12u64) == bit64(b, 12u64),
            bit64(a, 13u64) == bit64(b, 13u64),
            bit64(a, 14u64) == bit64(b, 14u64),
            bit64(a, 15u64) == bit64(b, 15u64),
            bit64(a, 16u64) == bit64(b, 16u64),
            bit64(a, 17u64) == bit64(b, 17u64),
            bit64(a, 18u64) == bit64(b, 18u64),
            bit64(a, 19u64) == bit64(b, 19u64),
            bit64(a, 20u64) == bit64(b, 20u64),
            bit64(a, 21u64) == bit64(b, 21u64),
            bit64(a, 22u64) == bit64(b, 22u64),
            bit64(a, 23u64) == bit64(b, 23u64),
            bit64(a, 24u64) == bit64(b, 24u64),
            bit64(a, 25u64) == bit64(b, 25u64),
            bit64(a, 26u64) == bit64(b, 26u64),
            bit64(a, 27u64) == bit64(b, 27u64),
            bit64(a, 28u64) == bit64(b, 28u64),
            bit64(a, 29u64) == bit64(b, 29u64),
            bit64(a, 30u64) == bit64(b, 30u64),
            bit64(a, 31u64) == bit64(b, 31u64),
            bit64(a, 32u64) == bit64(b, 32u64),
            bit64(a, 33u64) == bit64(b, 33u64),
            bit64(a, 34u64) == bit64(b, 34u64),
            bit64(a, 35u64) == bit64(b, 35u64),
            bit64(a, 36u64) == bit64(b, 36u64),
            bit64(a, 37u64) == bit64(b, 37u64),
            bit64(a, 38u64) == bit64(b, 38u64),
            bit64(a, 39u64) == bit64(b, 39u64),
            bit64(a, 40u64) == bit64(b, 40u64),
            bit64(a, 41u64) == bit64(b, 41u64),
            bit64(a, 42u64) == bit64(b, 42u64),
            bit64(a, 43u64) == bit64(b, 43u64),
            bit64(a, 44u64) == bit64(b, 44u64),
            bit64(a, 45u64) == bit64(b, 45u64),
            bit64(a, 46u64) == bit64(b, 46u64),
            bit64(a, 47u64) == bit64(b, 47u64),
            bit64(a, 48u64) == bit64(b, 48u64),
            bit64(a, 49u64) == bit64(b, 49u64),
            bit64(a, 50u64) == bit64(b, 50u64),
            bit64(a, 51u64) == bit64(b, 51u64),
            bit64(a, 52u64) == bit64(b, 52u64),
            bit64(a, 53u64) == bit64(b, 53u64),
            bit64(a, 54u64) == bit64(b, 54u64),
            bit64(a, 55u64) == bit64(b, 55u64),
            bit64(a, 56u64) == bit64(b, 56u64),
            bit64(a, 57u64) == bit64(b, 57u64),
            bit64(a, 58u64) == bit64(b, 58u64),
            bit64(a, 59u64) == bit64(b, 59u64),
            bit64(a, 60u64) == bit64(b, 60u64),
            bit64(a, 61u64) == bit64(b, 61u64),
            bit64(a, 62u64) == bit64(b, 62u64),
            bit64(a, 63u64) == bit64(b, 63u64),
    ;
}

/// Splitting an interleaved word gives back the two words, and interleaving the two
/// halves of a word gives back the word: [`interleave`] and [`deinterleave`] are inverse.
pub proof fn lemma_interleave_roundtrip(w: u64, x: u32, y: u32, parts: (u32, u32), v: u64)
    requires
        interleaves(w, x, y),
        splits(w, parts),
        interleaves(v, parts.0, parts.1),
    ensures
        parts == (x, y),
        v == w,
{
    assert forall|i: u64| i < 32 implies #[trigger] bit32(parts.0, i) == bit32(x, i) by {
        assert(bit64(w, (2 * i) as u64) == bit32(x, ((2 * i) as u64) / 2));
    }
    assert forall|i: u64| i < 32 implies #[trigger] bit32(parts.1, i) == bit32(y, i) by {
        assert(bit64(w, (2 * i + 1) as u64) == bit32(y, ((2 * i + 1) as u64) / 2));
    }
    lemma_bits_eq32(parts.0, x);
    lemma_bits_eq32(parts.1, y);
    assert forall|p: u64| p < 64 implies #[trigger] bit64(v, p) == bit64(w, p) by {
        let i = p / 2;
        if p % 2 == 0 {
            assert(bit32(parts.0, i) == bit64(w, (2 * i) as u64));
        } else {
            assert(bit32(parts.1, i) == bit64(w, (2 * i + 1) as u64));
        }
    }
    lemma_bits_eq64(v, w);
}

} // verus!
