//! What this crate takes from std about the bits of an integer, where vstd
//! states nothing: the counts of set bits, and the zeros at either end of a
//! `u128`. Beside them, how the counts that vstd does state relate to the
//! positions of [`crate::bits`].

use vstd::prelude::*;
use vstd::std_specs::bits::{
    axiom_u16_leading_zeros, axiom_u16_trailing_zeros, axiom_u32_leading_zeros, axiom_u32_trailing_zeros,
    axiom_u64_leading_zeros, axiom_u64_trailing_zeros, axiom_u8_leading_zeros, axiom_u8_trailing_zeros,
    u16_leading_zeros, u16_trailing_zeros, u32_leading_zeros, u32_trailing_zeros, u64_leading_zeros,
    u64_trailing_zeros, u8_leading_zeros, u8_trailing_zeros,
};
use crate::bits::{
    drop_lowest, has_bit, high_index, lemma_high_index_unique, lemma_low_index_unique, low_index, lowest, popcount,
};

verus! {

/// `u8::count_ones` of std: the number of set bits.
pub assume_specification[ u8::count_ones ](x: u8) -> (r: u32)
    ensures
        r == popcount(x as u128),
;

/// `u16::count_ones` of std: the number of set bits.
pub assume_specification[ u16::count_ones ](x: u16) -> (r: u32)
    ensures
        r == popcount(x as u128),
;

/// `u32::count_ones` of std: the number of set bits.
pub assume_specification[ u32::count_ones ](x: u32) -> (r: u32)
    ensures
        r == popcount(x as u128),
;

/// `u64::count_ones` of std: the number of set bits.
pub assume_specification[ u64::count_ones ](x: u64) -> (r: u32)
    ensures
        r == popcount(x as u128),
;

/// `u128::count_ones` of std: the number of set bits.
pub assume_specification[ u128::count_ones ](x: u128) -> (r: u32)
    ensures
        r == popcount(x as u128),
;

/// `u128::trailing_zeros` of std: the position of the lowest set bit, 128
/// where there is none.
pub assume_specification[ u128::trailing_zeros ](x: u128) -> (r: u32)
    ensures
        r == low_index(x),
;

/// `u128::leading_zeros` of std: 127 less the position of the highest set
/// bit, 128 where there is none.
pub assume_specification[ u128::leading_zeros ](x: u128) -> (r: u32)
    ensures
        r == (if x == 0 { 128 } else { 127 - high_index(x) }),
;

/// An integer has at most 128 set bits.
pub proof fn lemma_popcount_bound(x: u128)
    ensures
        popcount(x) <= 128,
{
    lemma_popcount_below(x, 128);
}

/// An integer below two to the `n` has at most `n` set bits.
proof fn lemma_popcount_below(x: u128, n: nat)
    requires
        n <= 128,
        n < 128 ==> x < vstd::arithmetic::power2::pow2(n),
    ensures
        popcount(x) <= n,
    decreases x,
{
    if x != 0 {
        if n == 0 {
            vstd::arithmetic::power2::lemma2_to64();
        } else {
            vstd::arithmetic::power2::lemma_pow2_unfold(n);
            if n == 128 {
                assert(x / 2 < vstd::arithmetic::power2::pow2(127)) by {
                    vstd::arithmetic::power2::lemma_pow2_unfold(128);
                    lemma_pow2_128();
                }
            }
            lemma_popcount_below(x / 2, (n - 1) as nat);
        }
    }
}

/// Two to the 128 is one more than the greatest `u128`.
proof fn lemma_pow2_128()
    ensures
        vstd::arithmetic::power2::pow2(128) == 0x1_0000_0000_0000_0000_0000_0000_0000_0000,
{
    vstd::arithmetic::power2::lemma2_to64();
    vstd::arithmetic::power2::lemma_pow2_adds(64, 64);
}

/// The trailing zeros of a `u8` that is not 0 are the position of its lowest set bit.
pub proof fn lemma_u8_low_index(x: u8)
    requires
        x != 0,
    ensures
        u8_trailing_zeros(x) == low_index(x as u128),
        u8_trailing_zeros(x) < 8,
        (x & ((x - 1) as u8)) as u128 == drop_lowest(x as u128),
        (x ^ (x & ((x - 1) as u8))) as u128 == lowest(x as u128),
{
    axiom_u8_trailing_zeros(x);
    let t = u8_trailing_zeros(x);
    assert(has_bit(x as u128, t as nat)) by {
        assert((x >> (t as u8)) & 1 == 1);
    }
    assert forall|b: nat| b < t implies !#[trigger] has_bit(x as u128, b) by {
        let j = b as u8;
        assert((x >> j) & 1 == 0);
    }
    lemma_low_index_unique(x as u128, t as nat);
}

/// The trailing zeros of a `u16` that is not 0 are the position of its lowest set bit.
pub proof fn lemma_u16_low_index(x: u16)
    requires
        x != 0,
    ensures
        u16_trailing_zeros(x) == low_index(x as u128),
        u16_trailing_zeros(x) < 16,
        (x & ((x - 1) as u16)) as u128 == drop_lowest(x as u128),
        (x ^ (x & ((x - 1) as u16))) as u128 == lowest(x as u128),
{
    axiom_u16_trailing_zeros(x);
    let t = u16_trailing_zeros(x);
    assert(has_bit(x as u128, t as nat)) by {
        assert((x >> (t as u16)) & 1 == 1);
    }
    assert forall|b: nat| b < t implies !#[trigger] has_bit(x as u128, b) by {
        let j = b as u16;
        assert((x >> j) & 1 == 0);
    }
    lemma_low_index_unique(x as u128, t as nat);
}

/// The trailing zeros of a `u32` that is not 0 are the position of its lowest set bit.
pub proof fn lemma_u32_low_index(x: u32)
    requires
        x != 0,
    ensures
        u32_trailing_zeros(x) == low_index(x as u128),
        u32_trailing_zeros(x) < 32,
        (x & ((x - 1) as u32)) as u128 == drop_lowest(x as u128),
        (x ^ (x & ((x - 1) as u32))) as u128 == lowest(x as u128),
{
    axiom_u32_trailing_zeros(x);
    let t = u32_trailing_zeros(x);
    assert(has_bit(x as u128, t as nat)) by {
        assert((x >> (t as u32)) & 1 == 1);
    }
    assert forall|b: nat| b < t implies !#[trigger] has_bit(x as u128, b) by {
        let j = b as u32;
        assert((x >> j) & 1 == 0);
    }
    lemma_low_index_unique(x as u128, t as nat);
}

/// The trailing zeros of a `u64` that is not 0 are the position of its lowest set bit.
pub proof fn lemma_u64_low_index(x: u64)
    requires
        x != 0,
    ensures
        u64_trailing_zeros(x) == low_index(x as u128),
        u64_trailing_zeros(x) < 64,
        (x & ((x - 1) as u64)) as u128 == drop_lowest(x as u128),
        (x ^ (x & ((x - 1) as u64))) as u128 == lowest(x as u128),
{
    axiom_u64_trailing_zeros(x);
    let t = u64_trailing_zeros(x);
    assert(has_bit(x as u128, t as nat)) by {
        assert((x >> (t as u64)) & 1 == 1);
    }
    assert forall|b: nat| b < t implies !#[trigger] has_bit(x as u128, b) by {
        let j = b as u64;
        assert((x >> j) & 1 == 0);
    }
    lemma_low_index_unique(x as u128, t as nat);
}

/// Bits above the width of a narrower integer are not set, and a bit that
/// is not 0 is 1.
proof fn lemma_high_bits(x: u128, b: u128, y: u64)
    by (bit_vector)
    requires
        b < 128,
    ensures
        x < 0x100 && 8 <= b ==> (x >> b) & 1 == 0,
        x < 0x1_0000 && 16 <= b ==> (x >> b) & 1 == 0,
        x < 0x1_0000_0000 && 32 <= b ==> (x >> b) & 1 == 0,
        x < 0x1_0000_0000_0000_0000 && 64 <= b ==> (x >> b) & 1 == 0,
        y & 1 != 0 ==> y & 1 == 1,
{
}

/// The leading zeros of a `u8` that is not 0 give the position of its highest set bit.
pub proof fn lemma_u8_high_index(x: u8)
    requires
        x != 0,
    ensures
        u8_leading_zeros(x) < 8,
        high_index(x as u128) == 8 - 1 - u8_leading_zeros(x),
{
    axiom_u8_leading_zeros(x);
    let z = u8_leading_zeros(x);
    let h = (8 - 1 - z) as nat;
    assert(has_bit(x as u128, h)) by {
        let y = x >> ((8 - 1 - z) as u8);
        assert(y & 1 != 0);
        lemma_high_bits(0, 0, y as u64);
        assert((y as u64) & 1 == y & 1);
    }
    assert forall|b: nat| h < b < 128 implies !#[trigger] has_bit(x as u128, b) by {
        if b < 8 {
            let j = b as u8;
            assert((x >> j) & 1 == 0);
        } else {
            lemma_high_bits(x as u128, b as u128, 0);
        }
    }
    lemma_high_index_unique(x as u128, h);
}

/// The leading zeros of a `u16` that is not 0 give the position of its highest set bit.
pub proof fn lemma_u16_high_index(x: u16)
    requires
        x != 0,
    ensures
        u16_leading_zeros(x) < 16,
        high_index(x as u128) == 16 - 1 - u16_leading_zeros(x),
{
    axiom_u16_leading_zeros(x);
    let z = u16_leading_zeros(x);
    let h = (16 - 1 - z) as nat;
    assert(has_bit(x as u128, h)) by {
        let y = x >> ((16 - 1 - z) as u16);
        assert(y & 1 != 0);
        lemma_high_bits(0, 0, y as u64);
        assert((y as u64) & 1 == y & 1);
    }
    assert forall|b: nat| h < b < 128 implies !#[trigger] has_bit(x as u128, b) by {
        if b < 16 {
            let j = b as u16;
            assert((x >> j) & 1 == 0);
        } else {
            lemma_high_bits(x as u128, b as u128, 0);
        }
    }
    lemma_high_index_unique(x as u128, h);
}

/// The leading zeros of a `u32` that is not 0 give the position of its highest set bit.
pub proof fn lemma_u32_high_index(x: u32)
    requires
        x != 0,
    ensures
        u32_leading_zeros(x) < 32,
        high_index(x as u128) == 32 - 1 - u32_leading_zeros(x),
{
    axiom_u32_leading_zeros(x);
    let z = u32_leading_zeros(x);
    let h = (32 - 1 - z) as nat;
    assert(has_bit(x as u128, h)) by {
        let y = x >> ((32 - 1 - z) as u32);
        assert(y & 1 != 0);
        lemma_high_bits(0, 0, y as u64);
        assert((y as u64) & 1 == y & 1);
    }
    assert forall|b: nat| h < b < 128 implies !#[trigger] has_bit(x as u128, b) by {
        if b < 32 {
            let j = b as u32;
            assert((x >> j) & 1 == 0);
        } else {
            lemma_high_bits(x as u128, b as u128, 0);
        }
    }
    lemma_high_index_unique(x as u128, h);
}

/// The leading zeros of a `u64` that is not 0 give the position of its highest set bit.
pub proof fn lemma_u64_high_index(x: u64)
    requires
        x != 0,
    ensures
        u64_leading_zeros(x) < 64,
        high_index(x as u128) == 64 - 1 - u64_leading_zeros(x),
{
    axiom_u64_leading_zeros(x);
    let z = u64_leading_zeros(x);
    let h = (64 - 1 - z) as nat;
    assert(has_bit(x as u128, h)) by {
        let y = x >> ((64 - 1 - z) as u64);
        assert(y & 1 != 0);
        lemma_high_bits(0, 0, y as u64);
        assert((y as u64) & 1 == y & 1);
    }
    assert forall|b: nat| h < b < 128 implies !#[trigger] has_bit(x as u128, b) by {
        if b < 64 {
            let j = b as u64;
            assert((x >> j) & 1 == 0);
        } else {
            lemma_high_bits(x as u128, b as u128, 0);
        }
    }
    lemma_high_index_unique(x as u128, h);
}

} // verus!
