//! Sets of bit positions held in an integer, and the order in which the
//! iterators of this crate walk them. Every width is read as a `u128`.

use vstd::prelude::*;
use vstd::arithmetic::power2::{lemma_pow2_unfold, pow2};

verus! {

/// Whether bit `b` of `x` is set.
pub open spec fn has_bit(x: u128, b: nat) -> bool {
    b < 128 && (x >> (b as u128)) & 1 == 1
}

/// The number of set bits of `x`.
pub open spec fn popcount(x: u128) -> nat
    decreases x,
{
    if x == 0 {
        0
    } else {
        (x % 2) as nat + popcount(x / 2)
    }
}

/// The position of the lowest set bit of `x`; 128 where `x` is 0.
pub open spec fn low_index(x: u128) -> nat
    decreases x,
{
    if x == 0 {
        128
    } else if x % 2 == 1 {
        0
    } else {
        1 + low_index(x / 2)
    }
}

/// The position of the highest set bit of `x`, where `x` is not 0.
pub open spec fn high_index(x: u128) -> nat
    decreases x,
{
    if x <= 1 {
        0
    } else {
        1 + high_index(x / 2)
    }
}

/// `x` without its lowest set bit.
pub open spec fn drop_lowest(x: u128) -> u128 {
    if x == 0 {
        0
    } else {
        x & ((x - 1) as u128)
    }
}

/// The lowest set bit of `x` as a mask; 0 where `x` is 0.
pub open spec fn lowest(x: u128) -> u128 {
    x ^ drop_lowest(x)
}

/// The positions of the set bits of `x`, lowest first.
pub open spec fn bit_indices(x: u128) -> Seq<nat>
    decreases x,
    via bit_indices_decreases
{
    if x == 0 {
        Seq::empty()
    } else {
        seq![low_index(x)] + bit_indices(drop_lowest(x))
    }
}

#[via_fn]
proof fn bit_indices_decreases(x: u128) {
    if x != 0 {
        lemma_drop_lowest_step(x);
    }
}

/// The set bits of `x`, each as a mask of its own, lowest first.
pub open spec fn bit_masks(x: u128) -> Seq<u128>
    decreases x,
    via bit_masks_decreases
{
    if x == 0 {
        Seq::empty()
    } else {
        seq![lowest(x)] + bit_masks(drop_lowest(x))
    }
}

#[via_fn]
proof fn bit_masks_decreases(x: u128) {
    if x != 0 {
        lemma_drop_lowest_step(x);
    }
}

/// The subset of `x` that comes after the subset `s`, which is not empty.
pub open spec fn next_subset(x: u128, s: u128) -> u128 {
    ((s - 1) as u128) & x
}

/// The subsets of `x` from `s` down to the empty one.
pub open spec fn subsets_from(x: u128, s: u128) -> Seq<u128>
    decreases s,
    via subsets_from_decreases
{
    if s == 0 {
        seq![0u128]
    } else {
        seq![s] + subsets_from(x, next_subset(x, s))
    }
}

#[via_fn]
proof fn subsets_from_decreases(x: u128, s: u128) {
    if s != 0 {
        lemma_next_subset(x, s);
    }
}

/// All the masks of `masks` combined by exclusive or.
pub open spec fn xor_all(masks: Seq<u128>) -> u128
    decreases masks.len(),
{
    if masks.len() == 0 {
        0
    } else {
        masks[0] ^ xor_all(masks.drop_first())
    }
}

proof fn lemma_drop_lowest_step(x: u128)
    by (bit_vector)
    requires
        x != 0,
    ensures
        (x & ((x - 1) as u128)) < x,
        x % 2 == 1 ==> (x & ((x - 1) as u128)) == x - 1 && (x & ((x - 1) as u128)) / 2 == x / 2,
        x % 2 == 0 ==> (x & ((x - 1) as u128)) % 2 == 0 && (x / 2) != 0 && (x & ((x - 1) as u128)) / 2 == (x / 2)
            & (((x / 2) - 1) as u128),
{
}

/// A number is made of its lowest bit and the rest.
proof fn lemma_lowest_parts(x: u128, y: u128)
    by (bit_vector)
    requires
        x != 0,
        y == x & ((x - 1) as u128),
    ensures
        (x ^ y) ^ y == x,
        (x ^ y) | y == x,
        y | (x ^ y) == x,
        (x ^ y) != 0,
        0u128 ^ x == x,
        x ^ 0u128 == x,
{
}

pub proof fn lemma_next_subset(x: u128, s: u128)
    by (bit_vector)
    requires
        s != 0,
    ensures
        (((s - 1) as u128) & x) < s,
        (((s - 1) as u128) & x) & x == ((s - 1) as u128) & x,
        x & x == x,
        0u128 & x == 0,
{
}

/// The bit at the lowest position, one step of the recursion at a time.
proof fn lemma_low_step(x: u128, t: u128, b: u128)
    requires
        x != 0,
        t < 127,
        b < 128,
    ensures
        x % 2 == 1 ==> (x >> 0) & 1 == 1,
        x % 2 == 0 ==> (x >> 0) & 1 == 0,
        ((x / 2) >> t) & 1 == (x >> ((t + 1) as u128)) & 1,
        x <= 1 ==> x == 1 && (x >> 0) & 1 == 1 && (b > 0 ==> (x >> b) & 1 == 0),
        x > 1 ==> x / 2 != 0,
        (x >> 127) & 1 == 1 ==> ((x / 2) >> 126) & 1 == 1 && ((x / 2) >> 127) & 1 == 0,
{
    lemma_shifts(x, t, b);
}

/// What the lowest set bit is: it is set, and none below it is.
pub proof fn lemma_low_index(x: u128)
    requires
        x != 0,
    ensures
        has_bit(x, low_index(x)),
        forall|b: nat| b < low_index(x) ==> !has_bit(x, b),
    decreases x,
{
    lemma_low_step(x, 0, 0);
    if x % 2 == 0 {
        lemma_low_index(x / 2);
        let t = low_index(x / 2);
        lemma_high_bit(x);
        assert(t < 127);
        lemma_low_step(x, t as u128, 0);
        assert forall|b: nat| b < low_index(x) implies !has_bit(x, b) by {
            if b > 0 {
                lemma_low_step(x, (b - 1) as u128, 0);
                assert(!has_bit(x / 2, (b - 1) as nat));
            }
        }
    }
}

proof fn lemma_high_bit(x: u128)
    ensures
        ((x / 2) >> 127) & 1 == 0,
{
    lemma_shifts(x, 0, 0);
}

/// What the highest set bit is: it is set, and none above it is.
pub proof fn lemma_high_index(x: u128)
    requires
        x != 0,
    ensures
        has_bit(x, high_index(x)),
        forall|b: nat| high_index(x) < b ==> !has_bit(x, b),
    decreases x,
{
    if x <= 1 {
        assert forall|b: nat| 0 < b implies !has_bit(x, b) by {
            if b < 128 {
                lemma_low_step(x, 0, b as u128);
            }
        }
        lemma_low_step(x, 0, 0);
    } else {
        lemma_low_step(x, 0, 0);
        lemma_high_index(x / 2);
        let t = high_index(x / 2);
        lemma_high_bit(x);
        assert(t < 127);
        lemma_low_step(x, t as u128, 0);
        assert forall|b: nat| high_index(x) < b implies !has_bit(x, b) by {
            if b < 128 {
                lemma_low_step(x, (b - 1) as u128, 0);
                assert(!has_bit(x / 2, (b - 1) as nat));
            }
        }
    }
}

/// A position where a bit is set and none below it is the lowest.
pub proof fn lemma_low_index_unique(x: u128, t: nat)
    requires
        has_bit(x, t),
        forall|b: nat| b < t ==> !has_bit(x, b),
    ensures
        x != 0,
        low_index(x) == t,
{
    lemma_zero_bits(t as u128);
    lemma_low_index(x);
}

/// A position where a bit is set and none above it is the highest.
pub proof fn lemma_high_index_unique(x: u128, t: nat)
    requires
        has_bit(x, t),
        forall|b: nat| t < b < 128 ==> !has_bit(x, b),
    ensures
        x != 0,
        high_index(x) == t,
{
    lemma_zero_bits(t as u128);
    lemma_high_index(x);
}

proof fn lemma_zero_bits(b: u128)
    requires
        b < 128,
    ensures
        (0u128 >> b) & 1 == 0,
{
    lemma_shifts(0, 0, b);
}

/// The number of set bits falls by one when the lowest is dropped.
pub proof fn lemma_popcount_drop(x: u128)
    requires
        x != 0,
    ensures
        popcount(drop_lowest(x)) + 1 == popcount(x),
    decreases x,
{
    lemma_drop_lowest_step(x);
    let y = drop_lowest(x);
    if x % 2 == 0 {
        lemma_popcount_drop(x / 2);
        assert(y / 2 == drop_lowest(x / 2));
    }
}

/// Only 0 has no set bit.
pub proof fn lemma_popcount_zero(x: u128)
    ensures
        popcount(x) == 0 <==> x == 0,
    decreases x,
{
    if x != 0 {
        lemma_popcount_zero(x / 2);
        if x % 2 == 0 {
            assert(x / 2 != 0);
        }
    }
}

/// A number has one set bit exactly when it is not 0 and nothing is left
/// of it without its lowest set bit.
pub proof fn lemma_popcount_one(x: u128)
    ensures
        popcount(x) == 1 <==> x != 0 && drop_lowest(x) == 0,
{
    lemma_popcount_zero(x);
    if x != 0 {
        lemma_popcount_drop(x);
        lemma_popcount_zero(drop_lowest(x));
    }
}

/// A set of bits within another has no more bits than the other.
pub proof fn lemma_popcount_within(a: u128, b: u128)
    requires
        a & b == a,
    ensures
        popcount(a) <= popcount(b),
    decreases b,
{
    lemma_within_halves(a, b, 0);
    if b != 0 && a != 0 {
        lemma_popcount_within(a / 2, b / 2);
    }
}

/// One more bit is one more in the count.
pub proof fn lemma_popcount_add(a: u128, bit: u128)
    requires
        bit != 0,
        bit & ((bit - 1) as u128) == 0,
        a & bit == 0,
    ensures
        popcount(a | bit) == popcount(a) + 1,
    decreases bit,
{
    lemma_within_halves(a, a, bit);
    if bit != 1 {
        lemma_popcount_add(a / 2, bit / 2);
    } else {
        lemma_popcount_zero(a | bit);
    }
}

proof fn lemma_within_halves(a: u128, b: u128, bit: u128)
    by (bit_vector)
    ensures
        a & b == a ==> (a / 2) & (b / 2) == a / 2 && a % 2 <= b % 2 && (b == 0 ==> a == 0),
        bit == 1 && a & bit == 0 ==> (a | bit) % 2 == 1 && a % 2 == 0 && (a | bit) / 2 == a / 2 && (a | bit) != 0,
        bit != 0 && bit != 1 && bit & ((bit - 1) as u128) == 0 && a & bit == 0 ==> (a | bit) % 2 == a % 2 && (a
            | bit) / 2 == (a / 2) | (bit / 2) && (bit / 2) != 0 && (bit / 2) & (((bit / 2) - 1) as u128) == 0 && (a
            / 2) & (bit / 2) == 0 && (a | bit) != 0 && bit / 2 < bit,
{
}

/// With the lowest bit at `t`: dropping it clears bit `t` and no other, and
/// the lowest bit as a mask is `1 << t`.
proof fn lemma_drop_clears(x: u128, t: u128, b: u128)
    by (bit_vector)
    requires
        t < 128,
        b < 128,
        (x >> t) & 1 == 1,
        x & (((1u128 << t) - 1) as u128) == 0,
    ensures
        ((x & ((x - 1) as u128)) >> b) & 1 == (if b == t { 0u128 } else { (x >> b) & 1 }),
        x ^ (x & ((x - 1) as u128)) == 1u128 << t,
        b < t ==> (x >> b) & 1 == 0,
{
}

/// No bit below `t` is set exactly when the mask of the bits below `t` is
/// clear.
proof fn lemma_low_clear(x: u128, t: nat)
    requires
        x != 0,
        t == low_index(x),
    ensures
        t < 128,
        x & (((1u128 << (t as u128)) - 1) as u128) == 0,
    decreases x,
{
    lemma_low_index(x);
    if x % 2 == 1 {
        lemma_low_mask_step(x, 0);
    } else {
        lemma_low_step(x, 0, 0);
        lemma_low_clear(x / 2, (t - 1) as nat);
        lemma_low_mask_step(x, (t - 1) as u128);
    }
}

proof fn lemma_low_mask_step(x: u128, t: u128)
    by (bit_vector)
    requires
        t < 127,
    ensures
        x & (((1u128 << 0u128) - 1) as u128) == 0,
        x % 2 == 0 && (x / 2) & (((1u128 << t) - 1) as u128) == 0 ==> x & (((1u128 << ((t + 1) as u128)) - 1) as u128)
            == 0,
{
}

/// The bit iterator yields as many positions as `x` has set bits, each
/// the position of a set bit, in ascending order, and misses none.
pub proof fn lemma_bit_indices(x: u128)
    ensures
        bit_indices(x).len() == popcount(x),
        forall|i: int| 0 <= i < bit_indices(x).len() ==> has_bit(x, #[trigger] bit_indices(x)[i]),
        forall|i: int, j: int|
            0 <= i < j < bit_indices(x).len() ==> #[trigger] bit_indices(x)[i] < #[trigger] bit_indices(x)[j],
        forall|b: nat| has_bit(x, b) ==> exists|i: int| 0 <= i < bit_indices(x).len() && #[trigger] bit_indices(x)[i] == b,
        x != 0 ==> bit_indices(x).len() > 0 && bit_indices(x)[0] == low_index(x),
    decreases x,
{
    if x != 0 {
        let y = drop_lowest(x);
        let t = low_index(x);
        let rest = bit_indices(y);
        lemma_drop_lowest_step(x);
        lemma_popcount_drop(x);
        lemma_low_index(x);
        lemma_low_clear(x, t);
        lemma_bit_indices(y);
        assert forall|b: nat| has_bit(y, b) <==> has_bit(x, b) && b != t by {
            if b < 128 {
                lemma_drop_clears(x, t as u128, b as u128);
            }
        }
        assert forall|i: int| 0 <= i < rest.len() implies t < #[trigger] rest[i] by {
            assert(has_bit(y, rest[i]));
            assert(has_bit(x, rest[i]));
        }
        let all = bit_indices(x);
        assert(all =~= seq![t] + rest);
        assert forall|i: int| 0 <= i < all.len() implies has_bit(x, #[trigger] all[i]) by {
            if i > 0 {
                assert(all[i] == rest[i - 1]);
                assert(has_bit(y, rest[i - 1]));
            }
        }
        assert forall|i: int, j: int| 0 <= i < j < all.len() implies #[trigger] all[i] < #[trigger] all[j] by {
            assert(all[j] == rest[j - 1]);
            if i > 0 {
                assert(all[i] == rest[i - 1]);
            }
        }
        assert forall|b: nat| has_bit(x, b) implies exists|i: int| 0 <= i < all.len() && #[trigger] all[i] == b by {
            if b == t {
                assert(all[0] == b);
            } else {
                assert(has_bit(y, b));
                let i = choose|i: int| 0 <= i < rest.len() && #[trigger] rest[i] == b;
                assert(all[i + 1] == b);
            }
        }
    } else {
        assert forall|b: nat| !has_bit(x, b) by {
            if b < 128 {
                lemma_zero_bits(b as u128);
            }
        }
    }
}

/// The mask iterator yields as many masks as `x` has set bits, the mask of
/// each set bit in ascending order, and their exclusive or is `x`.
pub proof fn lemma_bit_masks(x: u128)
    ensures
        bit_masks(x).len() == popcount(x),
        bit_masks(x).len() == bit_indices(x).len(),
        forall|i: int|
            0 <= i < bit_masks(x).len() ==> #[trigger] bit_masks(x)[i] == 1u128 << (bit_indices(x)[i] as u128),
        xor_all(bit_masks(x)) == x,
    decreases x,
{
    if x != 0 {
        let y = drop_lowest(x);
        let t = low_index(x);
        lemma_drop_lowest_step(x);
        lemma_popcount_drop(x);
        lemma_low_index(x);
        lemma_low_clear(x, t);
        lemma_drop_clears(x, t as u128, 0);
        lemma_bit_masks(y);
        lemma_lowest_parts(x, y);
        let all = bit_masks(x);
        assert(all =~= seq![lowest(x)] + bit_masks(y));
        assert(bit_indices(x) =~= seq![t] + bit_indices(y));
        assert(all.drop_first() =~= bit_masks(y));
        assert forall|i: int| 0 <= i < all.len() implies #[trigger] all[i] == 1u128 << (bit_indices(x)[i] as u128) by {
            if i > 0 {
                assert(all[i] == bit_masks(y)[i - 1]);
                assert(bit_indices(x)[i] == bit_indices(y)[i - 1]);
            }
        }
    }
}

/// How the subsets of `x` follow from those of `x` without its lowest bit:
/// each of them comes twice, first with the lowest bit, then without.
proof fn lemma_subset_pair(x: u128, t: u128)
    by (bit_vector)
    requires
        x != 0,
        t & (x & ((x - 1) as u128)) == t,
    ensures
        (t | (x ^ (x & ((x - 1) as u128)))) != 0,
        (((t | (x ^ (x & ((x - 1) as u128)))) - 1) as u128) & x == t,
        t != 0 ==> (((t - 1) as u128) & x) == ((((t - 1) as u128) & (x & ((x - 1) as u128))) | (x ^ (x & ((x - 1) as u128)))),
        t != 0 ==> (((t - 1) as u128) & (x & ((x - 1) as u128))) & (x & ((x - 1) as u128)) == (((t - 1) as u128) & (x
            & ((x - 1) as u128))),
        t != 0 ==> (((t - 1) as u128) & (x & ((x - 1) as u128))) < t,
{
}

/// With the lowest bit of `x` added, the subsets from `t` down are twice
/// as many.
proof fn lemma_subsets_double(x: u128, t: u128)
    requires
        x != 0,
        t & drop_lowest(x) == t,
    ensures
        subsets_from(x, t | lowest(x)).len() == 2 * subsets_from(drop_lowest(x), t).len(),
    decreases t,
{
    let y = drop_lowest(x);
    let l = lowest(x);
    lemma_subset_pair(x, t);
    let s = t | l;
    assert(next_subset(x, s) == t);
    assert(subsets_from(x, s) =~= seq![s] + subsets_from(x, t));
    if t != 0 {
        let u = next_subset(y, t);
        assert(next_subset(x, t) == u | l);
        assert(subsets_from(x, t) =~= seq![t] + subsets_from(x, u | l));
        lemma_subsets_double(x, u);
        assert(subsets_from(y, t) =~= seq![t] + subsets_from(y, u));
    }
}

/// The subset iterator yields two to the number of set bits of `x`
/// subsets, each within `x`, each smaller than the one before, `x` first and
/// the empty one last.
pub proof fn lemma_subsets(x: u128)
    ensures
        subsets_from(x, x).len() == pow2(popcount(x)),
        subsets_from(x, x)[0] == x,
        subsets_from(x, x).last() == 0,
    decreases x,
{
    lemma_next_subset(x, 1);
    lemma_subsets_from(x, x);
    if x == 0 {
        lemma_pow2_unfold(1);
        assert(pow2(0) == 1) by {
            vstd::arithmetic::power2::lemma2_to64();
        }
    } else {
        let y = drop_lowest(x);
        lemma_drop_lowest_step(x);
        lemma_popcount_drop(x);
        lemma_subsets(y);
        lemma_next_subset(y, 1);
        lemma_lowest_parts(x, y);
        lemma_subsets_double(x, y);
        lemma_pow2_unfold(popcount(x));
    }
}

/// The subsets from `s` down are within `x`, fall strictly, start at `s`
/// and end with the empty one.
pub proof fn lemma_subsets_from(x: u128, s: u128)
    requires
        s & x == s,
    ensures
        subsets_from(x, s).len() >= 1,
        subsets_from(x, s)[0] == s,
        subsets_from(x, s).last() == 0,
        forall|i: int| 0 <= i < subsets_from(x, s).len() ==> #[trigger] subsets_from(x, s)[i] & x == subsets_from(x, s)[i],
        forall|i: int, j: int|
            0 <= i < j < subsets_from(x, s).len() ==> #[trigger] subsets_from(x, s)[i] > #[trigger] subsets_from(x, s)[j],
        forall|i: int| 0 <= i < subsets_from(x, s).len() ==> #[trigger] subsets_from(x, s)[i] <= s,
    decreases s,
{
    if s != 0 {
        let n = next_subset(x, s);
        lemma_next_subset(x, s);
        lemma_subsets_from(x, n);
        let all = subsets_from(x, s);
        let rest = subsets_from(x, n);
        assert(all =~= seq![s] + rest);
        assert forall|i: int| 0 <= i < all.len() implies #[trigger] all[i] & x == all[i] && all[i] <= s by {
            if i > 0 {
                assert(all[i] == rest[i - 1]);
            }
        }
        assert forall|i: int, j: int| 0 <= i < j < all.len() implies #[trigger] all[i] > #[trigger] all[j] by {
            assert(all[j] == rest[j - 1]);
            if i > 0 {
                assert(all[i] == rest[i - 1]);
            }
        }
        assert(all.last() == rest.last());
    }
}

/// How a bit moves when a number is halved.
proof fn lemma_shifts(x: u128, t: u128, b: u128)
    by (bit_vector)
    ensures
        (x != 0) && (t < 127) && (b < 128) ==> (x % 2 == 1 ==> (x >> 0) & 1 == 1),
        (x != 0) && (t < 127) && (b < 128) ==> (x % 2 == 0 ==> (x >> 0) & 1 == 0),
        (x != 0) && (t < 127) && (b < 128) ==> (((x / 2) >> t) & 1 == (x >> ((t + 1) as u128)) & 1),
        (x != 0) && (t < 127) && (b < 128) ==> (x <= 1 ==> x == 1 && (x >> 0) & 1 == 1 && (b > 0 ==> (x >> b) & 1 == 0)),
        (x != 0) && (t < 127) && (b < 128) ==> (x > 1 ==> x / 2 != 0),
        (x != 0) && (t < 127) && (b < 128) ==> ((x >> 127) & 1 == 1 ==> ((x / 2) >> 126) & 1 == 1 && ((x / 2) >> 127) & 1 == 0),
        ((x / 2) >> 127) & 1 == 0,
        (b < 128) ==> ((0u128 >> b) & 1 == 0),
{
}

} // verus!
