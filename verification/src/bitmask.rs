//! A set of bit positions held in an integer, and iterators over it.

use vstd::prelude::*;
use vstd::std_specs::bits::{
    axiom_u16_leading_zeros, axiom_u32_leading_zeros, axiom_u64_leading_zeros, axiom_u8_leading_zeros,
};
use crate::bits::{
    bit_indices, bit_masks, drop_lowest, high_index, lemma_bit_indices, lemma_bit_masks, lemma_high_index,
    lemma_low_index, lemma_next_subset, low_index, lowest, next_subset, popcount, subsets_from,
};
use crate::bits_std::{
    lemma_popcount_bound, lemma_u16_high_index, lemma_u16_low_index, lemma_u32_high_index, lemma_u32_low_index,
    lemma_u64_high_index, lemma_u64_low_index, lemma_u8_high_index, lemma_u8_low_index,
};

verus! {

/// A set of bit positions.
#[derive(Clone, Copy, PartialEq, Eq, Hash, Debug)]
pub struct Bitmask<T>(T);

/// Yields the positions of the set bits, lowest first.
pub struct BitIter<T>(T);

/// Yields each set bit as a mask of its own, lowest first.
pub struct MaskIter<T>(T);

/// Yields every subset of a mask: the mask itself first, then each time the
/// greatest subset below the last one, down to the empty one.
pub struct SubsetIter<T>(T, Option<T>);

impl View for Bitmask<u8> {
    type V = u8;

    closed spec fn view(&self) -> u8 {
        self.0
    }
}

/// The mask that holds the positions of `bits`.
pub open spec fn mask_of_bits_u8(bits: Seq<usize>) -> u8
    decreases bits.len(),
{
    if bits.len() == 0 {
        0
    } else {
        mask_of_bits_u8(bits.drop_last()) | (1u8 << bits.last())
    }
}

impl Bitmask<u8> {
    /// The mask with the bits of `val`.
    pub fn from(val: u8) -> (r: Self)
        ensures
            r@ == val,
    {
        Bitmask(val)
    }

    /// The mask with the bits of `val`, as a mathematical value.
    pub closed spec fn of(val: u8) -> Self {
        Bitmask(val)
    }

    /// What [`Self::of`] holds.
    pub proof fn lemma_of(val: u8)
        ensures
            Self::of(val)@ == val,
    {
    }

    /// Two masks with the same bits are the same.
    pub proof fn lemma_same(a: Self, b: Self)
        requires
            a@ == b@,
        ensures
            a == b,
    {
    }

    /// The bits of the mask.
    pub fn into_inner(self) -> (r: u8)
        ensures
            r == self@,
    {
        self.0
    }

    /// The mask without a bit.
    pub fn empty() -> (r: Self)
        ensures
            r@ == 0,
    {
        Bitmask(0)
    }

    /// The mask with bit `bit` and no other.
    pub fn singleton(bit: usize) -> (r: Self)
        requires
            bit < 8,
        ensures
            r@ == 1u8 << bit,
    {
        Bitmask(1u8 << bit)
    }

    /// The mask with the bits at the positions of `bits`.
    pub fn from_iter(bits: &Vec<usize>) -> (r: Self)
        requires
            forall|i: int| 0 <= i < bits@.len() ==> bits@[i] < 8,
        ensures
            r@ == mask_of_bits_u8(bits@),
    {
        let mut acc: u8 = 0;
        let mut i: usize = 0;
        while i < bits.len()
            invariant
                i <= bits@.len(),
                forall|j: int| 0 <= j < bits@.len() ==> bits@[j] < 8,
                acc == mask_of_bits_u8(bits@.subrange(0, i as int)),
            decreases bits@.len() - i,
        {
            proof {
                assert(bits@.subrange(0, i + 1).drop_last() =~= bits@.subrange(0, i as int));
            }
            acc = acc | (1u8 << bits[i]);
            i += 1;
        }
        proof {
            assert(bits@.subrange(0, i as int) =~= bits@);
        }
        Bitmask(acc)
    }

    /// An iterator over the positions of the set bits, lowest first.
    pub fn as_bit_iter(&self) -> (r: BitIter<u8>)
        ensures
            r@ == self@,
    {
        BitIter::<u8>::from(self.0)
    }

    /// An iterator over the set bits as masks, lowest first.
    pub fn as_mask_iter(&self) -> (r: MaskIter<u8>)
        ensures
            r@ == self@,
    {
        MaskIter::<u8>::from(self.0)
    }

    /// An iterator over the subsets of the mask, the mask itself first.
    pub fn as_subset_iter(&self) -> (r: SubsetIter<u8>)
        ensures
            r.remaining() == subsets_from(self@ as u128, self@ as u128),
    {
        SubsetIter::<u8>::from(self.0)
    }

    /// Whether no bit is set.
    pub fn is_empty(&self) -> (r: bool)
        ensures
            r == (self@ == 0),
    {
        self.0 == 0
    }

    /// Whether a bit is set.
    pub fn is_not_empty(&self) -> (r: bool)
        ensures
            r == (self@ != 0),
    {
        self.0 != 0
    }

    /// Whether bit `bit` is set.
    pub fn contains(&self, bit: usize) -> (r: bool)
        requires
            bit < 8,
        ensures
            r == (self@ & (1u8 << bit) != 0),
    {
        (self.0 & (1u8 << bit)) != 0
    }

    /// The number of set bits.
    pub fn count_ones(&self) -> (r: u32)
        ensures
            r == popcount(self@ as u128),
    {
        self.0.count_ones()
    }

    /// Sets bit `bit`.
    pub fn set(&mut self, bit: usize)
        requires
            bit < 8,
        ensures
            final(self)@ == old(self)@ | (1u8 << bit),
    {
        self.0 = self.0 | (1u8 << bit);
    }

    /// Clears bit `bit`.
    pub fn unset(&mut self, bit: usize)
        requires
            bit < 8,
        ensures
            final(self)@ == old(self)@ & !(1u8 << bit),
    {
        self.0 = self.0 & !(1u8 << bit);
    }

    /// The position of the highest set bit, if there is one.
    pub fn max(&self) -> (r: Option<usize>)
        ensures
            r == (if self@ == 0 { None } else { Some(high_index(self@ as u128) as usize) }),
            r matches Some(position) ==> position < 8,
    {
        if self.0 == 0 {
            None
        } else {
            proof {
                axiom_u8_leading_zeros(self.0);
                lemma_u8_high_index(self.0);
            }
            Some((8 - 1 - self.0.leading_zeros()) as usize)
        }
    }

    /// The mask of the bits that are not set.
    pub fn not(self) -> (r: Self)
        ensures
            r@ == !self@,
    {
        Bitmask(!self.0)
    }

    /// The mask of the bits that are set in both.
    pub fn bitand(self, rhs: Self) -> (r: Self)
        ensures
            r@ == self@ & rhs@,
    {
        Bitmask(self.0 & rhs.0)
    }

    /// The mask of the bits that are set in either.
    pub fn bitor(self, rhs: Self) -> (r: Self)
        ensures
            r@ == self@ | rhs@,
    {
        Bitmask(self.0 | rhs.0)
    }

    /// The mask of the bits that are set in one of the two.
    pub fn bitxor(self, rhs: Self) -> (r: Self)
        ensures
            r@ == self@ ^ rhs@,
    {
        Bitmask(self.0 ^ rhs.0)
    }

    /// Keeps the bits that are set in `rhs` too.
    pub fn bitand_assign(&mut self, rhs: Self)
        ensures
            final(self)@ == old(self)@ & rhs@,
    {
        self.0 = self.0 & rhs.0;
    }

    /// Adds the bits that are set in `rhs`.
    pub fn bitor_assign(&mut self, rhs: Self)
        ensures
            final(self)@ == old(self)@ | rhs@,
    {
        self.0 = self.0 | rhs.0;
    }

    /// Flips the bits that are set in `rhs`.
    pub fn bitxor_assign(&mut self, rhs: Self)
        ensures
            final(self)@ == old(self)@ ^ rhs@,
    {
        self.0 = self.0 ^ rhs.0;
    }

    /// Whether the two masks hold the same bits.
    pub fn same_as(&self, rhs: &Self) -> (r: bool)
        ensures
            r == (self@ == rhs@),
    {
        self.0 == rhs.0
    }
}

impl View for Bitmask<u16> {
    type V = u16;

    closed spec fn view(&self) -> u16 {
        self.0
    }
}

/// The mask that holds the positions of `bits`.
pub open spec fn mask_of_bits_u16(bits: Seq<usize>) -> u16
    decreases bits.len(),
{
    if bits.len() == 0 {
        0
    } else {
        mask_of_bits_u16(bits.drop_last()) | (1u16 << bits.last())
    }
}

impl Bitmask<u16> {
    /// The mask with the bits of `val`.
    pub fn from(val: u16) -> (r: Self)
        ensures
            r@ == val,
    {
        Bitmask(val)
    }

    /// The mask with the bits of `val`, as a mathematical value.
    pub closed spec fn of(val: u16) -> Self {
        Bitmask(val)
    }

    /// What [`Self::of`] holds.
    pub proof fn lemma_of(val: u16)
        ensures
            Self::of(val)@ == val,
    {
    }

    /// Two masks with the same bits are the same.
    pub proof fn lemma_same(a: Self, b: Self)
        requires
            a@ == b@,
        ensures
            a == b,
    {
    }

    /// The bits of the mask.
    pub fn into_inner(self) -> (r: u16)
        ensures
            r == self@,
    {
        self.0
    }

    /// The mask without a bit.
    pub fn empty() -> (r: Self)
        ensures
            r@ == 0,
    {
        Bitmask(0)
    }

    /// The mask with bit `bit` and no other.
    pub fn singleton(bit: usize) -> (r: Self)
        requires
            bit < 16,
        ensures
            r@ == 1u16 << bit,
    {
        Bitmask(1u16 << bit)
    }

    /// The mask with the bits at the positions of `bits`.
    pub fn from_iter(bits: &Vec<usize>) -> (r: Self)
        requires
            forall|i: int| 0 <= i < bits@.len() ==> bits@[i] < 16,
        ensures
            r@ == mask_of_bits_u16(bits@),
    {
        let mut acc: u16 = 0;
        let mut i: usize = 0;
        while i < bits.len()
            invariant
                i <= bits@.len(),
                forall|j: int| 0 <= j < bits@.len() ==> bits@[j] < 16,
                acc == mask_of_bits_u16(bits@.subrange(0, i as int)),
            decreases bits@.len() - i,
        {
            proof {
                assert(bits@.subrange(0, i + 1).drop_last() =~= bits@.subrange(0, i as int));
            }
            acc = acc | (1u16 << bits[i]);
            i += 1;
        }
        proof {
            assert(bits@.subrange(0, i as int) =~= bits@);
        }
        Bitmask(acc)
    }

    /// An iterator over the positions of the set bits, lowest first.
    pub fn as_bit_iter(&self) -> (r: BitIter<u16>)
        ensures
            r@ == self@,
    {
        BitIter::<u16>::from(self.0)
    }

    /// An iterator over the set bits as masks, lowest first.
    pub fn as_mask_iter(&self) -> (r: MaskIter<u16>)
        ensures
            r@ == self@,
    {
        MaskIter::<u16>::from(self.0)
    }

    /// An iterator over the subsets of the mask, the mask itself first.
    pub fn as_subset_iter(&self) -> (r: SubsetIter<u16>)
        ensures
            r.remaining() == subsets_from(self@ as u128, self@ as u128),
    {
        SubsetIter::<u16>::from(self.0)
    }

    /// Whether no bit is set.
    pub fn is_empty(&self) -> (r: bool)
        ensures
            r == (self@ == 0),
    {
        self.0 == 0
    }

    /// Whether a bit is set.
    pub fn is_not_empty(&self) -> (r: bool)
        ensures
            r == (self@ != 0),
    {
        self.0 != 0
    }

    /// Whether bit `bit` is set.
    pub fn contains(&self, bit: usize) -> (r: bool)
        requires
            bit < 16,
        ensures
            r == (self@ & (1u16 << bit) != 0),
    {
        (self.0 & (1u16 << bit)) != 0
    }

    /// The number of set bits.
    pub fn count_ones(&self) -> (r: u32)
        ensures
            r == popcount(self@ as u128),
    {
        self.0.count_ones()
    }

    /// Sets bit `bit`.
    pub fn set(&mut self, bit: usize)
        requires
            bit < 16,
        ensures
            final(self)@ == old(self)@ | (1u16 << bit),
    {
        self.0 = self.0 | (1u16 << bit);
    }

    /// Clears bit `bit`.
    pub fn unset(&mut self, bit: usize)
        requires
            bit < 16,
        ensures
            final(self)@ == old(self)@ & !(1u16 << bit),
    {
        self.0 = self.0 & !(1u16 << bit);
    }

    /// The position of the highest set bit, if there is one.
    pub fn max(&self) -> (r: Option<usize>)
        ensures
            r == (if self@ == 0 { None } else { Some(high_index(self@ as u128) as usize) }),
            r matches Some(position) ==> position < 16,
    {
        if self.0 == 0 {
            None
        } else {
            proof {
                axiom_u16_leading_zeros(self.0);
                lemma_u16_high_index(self.0);
            }
            Some((16 - 1 - self.0.leading_zeros()) as usize)
        }
    }

    /// The mask of the bits that are not set.
    pub fn not(self) -> (r: Self)
        ensures
            r@ == !self@,
    {
        Bitmask(!self.0)
    }

    /// The mask of the bits that are set in both.
    pub fn bitand(self, rhs: Self) -> (r: Self)
        ensures
            r@ == self@ & rhs@,
    {
        Bitmask(self.0 & rhs.0)
    }

    /// The mask of the bits that are set in either.
    pub fn bitor(self, rhs: Self) -> (r: Self)
        ensures
            r@ == self@ | rhs@,
    {
        Bitmask(self.0 | rhs.0)
    }

    /// The mask of the bits that are set in one of the two.
    pub fn bitxor(self, rhs: Self) -> (r: Self)
        ensures
            r@ == self@ ^ rhs@,
    {
        Bitmask(self.0 ^ rhs.0)
    }

    /// Keeps the bits that are set in `rhs` too.
    pub fn bitand_assign(&mut self, rhs: Self)
        ensures
            final(self)@ == old(self)@ & rhs@,
    {
        self.0 = self.0 & rhs.0;
    }

    /// Adds the bits that are set in `rhs`.
    pub fn bitor_assign(&mut self, rhs: Self)
        ensures
            final(self)@ == old(self)@ | rhs@,
    {
        self.0 = self.0 | rhs.0;
    }

    /// Flips the bits that are set in `rhs`.
    pub fn bitxor_assign(&mut self, rhs: Self)
        ensures
            final(self)@ == old(self)@ ^ rhs@,
    {
        self.0 = self.0 ^ rhs.0;
    }

    /// Whether the two masks hold the same bits.
    pub fn same_as(&self, rhs: &Self) -> (r: bool)
        ensures
            r == (self@ == rhs@),
    {
        self.0 == rhs.0
    }
}

impl View for Bitmask<u32> {
    type V = u32;

    closed spec fn view(&self) -> u32 {
        self.0
    }
}

/// The mask that holds the positions of `bits`.
pub open spec fn mask_of_bits_u32(bits: Seq<usize>) -> u32
    decreases bits.len(),
{
    if bits.len() == 0 {
        0
    } else {
        mask_of_bits_u32(bits.drop_last()) | (1u32 << bits.last())
    }
}

impl Bitmask<u32> {
    /// The mask with the bits of `val`.
    pub fn from(val: u32) -> (r: Self)
        ensures
            r@ == val,
    {
        Bitmask(val)
    }

    /// The mask with the bits of `val`, as a mathematical value.
    pub closed spec fn of(val: u32) -> Self {
        Bitmask(val)
    }

    /// What [`Self::of`] holds.
    pub proof fn lemma_of(val: u32)
        ensures
            Self::of(val)@ == val,
    {
    }

    /// Two masks with the same bits are the same.
    pub proof fn lemma_same(a: Self, b: Self)
        requires
            a@ == b@,
        ensures
            a == b,
    {
    }

    /// The bits of the mask.
    pub fn into_inner(self) -> (r: u32)
        ensures
            r == self@,
    {
        self.0
    }

    /// The mask without a bit.
    pub fn empty() -> (r: Self)
        ensures
            r@ == 0,
    {
        Bitmask(0)
    }

    /// The mask with bit `bit` and no other.
    pub fn singleton(bit: usize) -> (r: Self)
        requires
            bit < 32,
        ensures
            r@ == 1u32 << bit,
    {
        Bitmask(1u32 << bit)
    }

    /// The mask with the bits at the positions of `bits`.
    pub fn from_iter(bits: &Vec<usize>) -> (r: Self)
        requires
            forall|i: int| 0 <= i < bits@.len() ==> bits@[i] < 32,
        ensures
            r@ == mask_of_bits_u32(bits@),
    {
        let mut acc: u32 = 0;
        let mut i: usize = 0;
        while i < bits.len()
            invariant
                i <= bits@.len(),
                forall|j: int| 0 <= j < bits@.len() ==> bits@[j] < 32,
                acc == mask_of_bits_u32(bits@.subrange(0, i as int)),
            decreases bits@.len() - i,
        {
            proof {
                assert(bits@.subrange(0, i + 1).drop_last() =~= bits@.subrange(0, i as int));
            }
            acc = acc | (1u32 << bits[i]);
            i += 1;
        }
        proof {
            assert(bits@.subrange(0, i as int) =~= bits@);
        }
        Bitmask(acc)
    }

    /// An iterator over the positions of the set bits, lowest first.
    pub fn as_bit_iter(&self) -> (r: BitIter<u32>)
        ensures
            r@ == self@,
    {
        BitIter::<u32>::from(self.0)
    }

    /// An iterator over the set bits as masks, lowest first.
    pub fn as_mask_iter(&self) -> (r: MaskIter<u32>)
        ensures
            r@ == self@,
    {
        MaskIter::<u32>::from(self.0)
    }

    /// An iterator over the subsets of the mask, the mask itself first.
    pub fn as_subset_iter(&self) -> (r: SubsetIter<u32>)
        ensures
            r.remaining() == subsets_from(self@ as u128, self@ as u128),
    {
        SubsetIter::<u32>::from(self.0)
    }

    /// Whether no bit is set.
    pub fn is_empty(&self) -> (r: bool)
        ensures
            r == (self@ == 0),
    {
        self.0 == 0
    }

    /// Whether a bit is set.
    pub fn is_not_empty(&self) -> (r: bool)
        ensures
            r == (self@ != 0),
    {
        self.0 != 0
    }

    /// Whether bit `bit` is set.
    pub fn contains(&self, bit: usize) -> (r: bool)
        requires
            bit < 32,
        ensures
            r == (self@ & (1u32 << bit) != 0),
    {
        (self.0 & (1u32 << bit)) != 0
    }

    /// The number of set bits.
    pub fn count_ones(&self) -> (r: u32)
        ensures
            r == popcount(self@ as u128),
    {
        self.0.count_ones()
    }

    /// Sets bit `bit`.
    pub fn set(&mut self, bit: usize)
        requires
            bit < 32,
        ensures
            final(self)@ == old(self)@ | (1u32 << bit),
    {
        self.0 = self.0 | (1u32 << bit);
    }

    /// Clears bit `bit`.
    pub fn unset(&mut self, bit: usize)
        requires
            bit < 32,
        ensures
            final(self)@ == old(self)@ & !(1u32 << bit),
    {
        self.0 = self.0 & !(1u32 << bit);
    }

    /// The position of the highest set bit, if there is one.
    pub fn max(&self) -> (r: Option<usize>)
        ensures
            r == (if self@ == 0 { None } else { Some(high_index(self@ as u128) as usize) }),
            r matches Some(position) ==> position < 32,
    {
        if self.0 == 0 {
            None
        } else {
            proof {
                axiom_u32_leading_zeros(self.0);
                lemma_u32_high_index(self.0);
            }
            Some((32 - 1 - self.0.leading_zeros()) as usize)
        }
    }

    /// The mask of the bits that are not set.
    pub fn not(self) -> (r: Self)
        ensures
            r@ == !self@,
    {
        Bitmask(!self.0)
    }

    /// The mask of the bits that are set in both.
    pub fn bitand(self, rhs: Self) -> (r: Self)
        ensures
            r@ == self@ & rhs@,
    {
        Bitmask(self.0 & rhs.0)
    }

    /// The mask of the bits that are set in either.
    pub fn bitor(self, rhs: Self) -> (r: Self)
        ensures
            r@ == self@ | rhs@,
    {
        Bitmask(self.0 | rhs.0)
    }

    /// The mask of the bits that are set in one of the two.
    pub fn bitxor(self, rhs: Self) -> (r: Self)
        ensures
            r@ == self@ ^ rhs@,
    {
        Bitmask(self.0 ^ rhs.0)
    }

    /// Keeps the bits that are set in `rhs` too.
    pub fn bitand_assign(&mut self, rhs: Self)
        ensures
            final(self)@ == old(self)@ & rhs@,
    {
        self.0 = self.0 & rhs.0;
    }

    /// Adds the bits that are set in `rhs`.
    pub fn bitor_assign(&mut self, rhs: Self)
        ensures
            final(self)@ == old(self)@ | rhs@,
    {
        self.0 = self.0 | rhs.0;
    }

    /// Flips the bits that are set in `rhs`.
    pub fn bitxor_assign(&mut self, rhs: Self)
        ensures
            final(self)@ == old(self)@ ^ rhs@,
    {
        self.0 = self.0 ^ rhs.0;
    }

    /// Whether the two masks hold the same bits.
    pub fn same_as(&self, rhs: &Self) -> (r: bool)
        ensures
            r == (self@ == rhs@),
    {
        self.0 == rhs.0
    }
}

impl View for Bitmask<u64> {
    type V = u64;

    closed spec fn view(&self) -> u64 {
        self.0
    }
}

/// The mask that holds the positions of `bits`.
pub open spec fn mask_of_bits_u64(bits: Seq<usize>) -> u64
    decreases bits.len(),
{
    if bits.len() == 0 {
        0
    } else {
        mask_of_bits_u64(bits.drop_last()) | (1u64 << bits.last())
    }
}

impl Bitmask<u64> {
    /// The mask with the bits of `val`.
    pub fn from(val: u64) -> (r: Self)
        ensures
            r@ == val,
    {
        Bitmask(val)
    }

    /// The mask with the bits of `val`, as a mathematical value.
    pub closed spec fn of(val: u64) -> Self {
        Bitmask(val)
    }

    /// What [`Self::of`] holds.
    pub proof fn lemma_of(val: u64)
        ensures
            Self::of(val)@ == val,
    {
    }

    /// Two masks with the same bits are the same.
    pub proof fn lemma_same(a: Self, b: Self)
        requires
            a@ == b@,
        ensures
            a == b,
    {
    }

    /// The bits of the mask.
    pub fn into_inner(self) -> (r: u64)
        ensures
            r == self@,
    {
        self.0
    }

    /// The mask without a bit.
    pub fn empty() -> (r: Self)
        ensures
            r@ == 0,
    {
        Bitmask(0)
    }

    /// The mask with bit `bit` and no other.
    pub fn singleton(bit: usize) -> (r: Self)
        requires
            bit < 64,
        ensures
            r@ == 1u64 << bit,
    {
        Bitmask(1u64 << bit)
    }

    /// The mask with the bits at the positions of `bits`.
    pub fn from_iter(bits: &Vec<usize>) -> (r: Self)
        requires
            forall|i: int| 0 <= i < bits@.len() ==> bits@[i] < 64,
        ensures
            r@ == mask_of_bits_u64(bits@),
    {
        let mut acc: u64 = 0;
        let mut i: usize = 0;
        while i < bits.len()
            invariant
                i <= bits@.len(),
                forall|j: int| 0 <= j < bits@.len() ==> bits@[j] < 64,
                acc == mask_of_bits_u64(bits@.subrange(0, i as int)),
            decreases bits@.len() - i,
        {
            proof {
                assert(bits@.subrange(0, i + 1).drop_last() =~= bits@.subrange(0, i as int));
            }
            acc = acc | (1u64 << bits[i]);
            i += 1;
        }
        proof {
            assert(bits@.subrange(0, i as int) =~= bits@);
        }
        Bitmask(acc)
    }

    /// An iterator over the positions of the set bits, lowest first.
    pub fn as_bit_iter(&self) -> (r: BitIter<u64>)
        ensures
            r@ == self@,
    {
        BitIter::<u64>::from(self.0)
    }

    /// An iterator over the set bits as masks, lowest first.
    pub fn as_mask_iter(&self) -> (r: MaskIter<u64>)
        ensures
            r@ == self@,
    {
        MaskIter::<u64>::from(self.0)
    }

    /// An iterator over the subsets of the mask, the mask itself first.
    pub fn as_subset_iter(&self) -> (r: SubsetIter<u64>)
        ensures
            r.remaining() == subsets_from(self@ as u128, self@ as u128),
    {
        SubsetIter::<u64>::from(self.0)
    }

    /// Whether no bit is set.
    pub fn is_empty(&self) -> (r: bool)
        ensures
            r == (self@ == 0),
    {
        self.0 == 0
    }

    /// Whether a bit is set.
    pub fn is_not_empty(&self) -> (r: bool)
        ensures
            r == (self@ != 0),
    {
        self.0 != 0
    }

    /// Whether bit `bit` is set.
    pub fn contains(&self, bit: usize) -> (r: bool)
        requires
            bit < 64,
        ensures
            r == (self@ & (1u64 << bit) != 0),
    {
        (self.0 & (1u64 << bit)) != 0
    }

    /// The number of set bits.
    pub fn count_ones(&self) -> (r: u32)
        ensures
            r == popcount(self@ as u128),
    {
        self.0.count_ones()
    }

    /// Sets bit `bit`.
    pub fn set(&mut self, bit: usize)
        requires
            bit < 64,
        ensures
            final(self)@ == old(self)@ | (1u64 << bit),
    {
        self.0 = self.0 | (1u64 << bit);
    }

    /// Clears bit `bit`.
    pub fn unset(&mut self, bit: usize)
        requires
            bit < 64,
        ensures
            final(self)@ == old(self)@ & !(1u64 << bit),
    {
        self.0 = self.0 & !(1u64 << bit);
    }

    /// The position of the highest set bit, if there is one.
    pub fn max(&self) -> (r: Option<usize>)
        ensures
            r == (if self@ == 0 { None } else { Some(high_index(self@ as u128) as usize) }),
            r matches Some(position) ==> position < 64,
    {
        if self.0 == 0 {
            None
        } else {
            proof {
                axiom_u64_leading_zeros(self.0);
                lemma_u64_high_index(self.0);
            }
            Some((64 - 1 - self.0.leading_zeros()) as usize)
        }
    }

    /// The mask of the bits that are not set.
    pub fn not(self) -> (r: Self)
        ensures
            r@ == !self@,
    {
        Bitmask(!self.0)
    }

    /// The mask of the bits that are set in both.
    pub fn bitand(self, rhs: Self) -> (r: Self)
        ensures
            r@ == self@ & rhs@,
    {
        Bitmask(self.0 & rhs.0)
    }

    /// The mask of the bits that are set in either.
    pub fn bitor(self, rhs: Self) -> (r: Self)
        ensures
            r@ == self@ | rhs@,
    {
        Bitmask(self.0 | rhs.0)
    }

    /// The mask of the bits that are set in one of the two.
    pub fn bitxor(self, rhs: Self) -> (r: Self)
        ensures
            r@ == self@ ^ rhs@,
    {
        Bitmask(self.0 ^ rhs.0)
    }

    /// Keeps the bits that are set in `rhs` too.
    pub fn bitand_assign(&mut self, rhs: Self)
        ensures
            final(self)@ == old(self)@ & rhs@,
    {
        self.0 = self.0 & rhs.0;
    }

    /// Adds the bits that are set in `rhs`.
    pub fn bitor_assign(&mut self, rhs: Self)
        ensures
            final(self)@ == old(self)@ | rhs@,
    {
        self.0 = self.0 | rhs.0;
    }

    /// Flips the bits that are set in `rhs`.
    pub fn bitxor_assign(&mut self, rhs: Self)
        ensures
            final(self)@ == old(self)@ ^ rhs@,
    {
        self.0 = self.0 ^ rhs.0;
    }

    /// Whether the two masks hold the same bits.
    pub fn same_as(&self, rhs: &Self) -> (r: bool)
        ensures
            r == (self@ == rhs@),
    {
        self.0 == rhs.0
    }
}

impl View for Bitmask<u128> {
    type V = u128;

    closed spec fn view(&self) -> u128 {
        self.0
    }
}

/// The mask that holds the positions of `bits`.
pub open spec fn mask_of_bits_u128(bits: Seq<usize>) -> u128
    decreases bits.len(),
{
    if bits.len() == 0 {
        0
    } else {
        mask_of_bits_u128(bits.drop_last()) | (1u128 << bits.last())
    }
}

impl Bitmask<u128> {
    /// The mask with the bits of `val`.
    pub fn from(val: u128) -> (r: Self)
        ensures
            r@ == val,
    {
        Bitmask(val)
    }

    /// The mask with the bits of `val`, as a mathematical value.
    pub closed spec fn of(val: u128) -> Self {
        Bitmask(val)
    }

    /// What [`Self::of`] holds.
    pub proof fn lemma_of(val: u128)
        ensures
            Self::of(val)@ == val,
    {
    }

    /// Two masks with the same bits are the same.
    pub proof fn lemma_same(a: Self, b: Self)
        requires
            a@ == b@,
        ensures
            a == b,
    {
    }

    /// The bits of the mask.
    pub fn into_inner(self) -> (r: u128)
        ensures
            r == self@,
    {
        self.0
    }

    /// The mask without a bit.
    pub fn empty() -> (r: Self)
        ensures
            r@ == 0,
    {
        Bitmask(0)
    }

    /// The mask with bit `bit` and no other.
    pub fn singleton(bit: usize) -> (r: Self)
        requires
            bit < 128,
        ensures
            r@ == 1u128 << bit,
    {
        Bitmask(1u128 << bit)
    }

    /// The mask with the bits at the positions of `bits`.
    pub fn from_iter(bits: &Vec<usize>) -> (r: Self)
        requires
            forall|i: int| 0 <= i < bits@.len() ==> bits@[i] < 128,
        ensures
            r@ == mask_of_bits_u128(bits@),
    {
        let mut acc: u128 = 0;
        let mut i: usize = 0;
        while i < bits.len()
            invariant
                i <= bits@.len(),
                forall|j: int| 0 <= j < bits@.len() ==> bits@[j] < 128,
                acc == mask_of_bits_u128(bits@.subrange(0, i as int)),
            decreases bits@.len() - i,
        {
            proof {
                assert(bits@.subrange(0, i + 1).drop_last() =~= bits@.subrange(0, i as int));
            }
            acc = acc | (1u128 << bits[i]);
            i += 1;
        }
        proof {
            assert(bits@.subrange(0, i as int) =~= bits@);
        }
        Bitmask(acc)
    }

    /// An iterator over the positions of the set bits, lowest first.
    pub fn as_bit_iter(&self) -> (r: BitIter<u128>)
        ensures
            r@ == self@,
    {
        BitIter::<u128>::from(self.0)
    }

    /// An iterator over the set bits as masks, lowest first.
    pub fn as_mask_iter(&self) -> (r: MaskIter<u128>)
        ensures
            r@ == self@,
    {
        MaskIter::<u128>::from(self.0)
    }

    /// An iterator over the subsets of the mask, the mask itself first.
    pub fn as_subset_iter(&self) -> (r: SubsetIter<u128>)
        ensures
            r.remaining() == subsets_from(self@ as u128, self@ as u128),
    {
        SubsetIter::<u128>::from(self.0)
    }

    /// Whether no bit is set.
    pub fn is_empty(&self) -> (r: bool)
        ensures
            r == (self@ == 0),
    {
        self.0 == 0
    }

    /// Whether a bit is set.
    pub fn is_not_empty(&self) -> (r: bool)
        ensures
            r == (self@ != 0),
    {
        self.0 != 0
    }

    /// Whether bit `bit` is set.
    pub fn contains(&self, bit: usize) -> (r: bool)
        requires
            bit < 128,
        ensures
            r == (self@ & (1u128 << bit) != 0),
    {
        (self.0 & (1u128 << bit)) != 0
    }

    /// The number of set bits.
    pub fn count_ones(&self) -> (r: u32)
        ensures
            r == popcount(self@ as u128),
    {
        self.0.count_ones()
    }

    /// Sets bit `bit`.
    pub fn set(&mut self, bit: usize)
        requires
            bit < 128,
        ensures
            final(self)@ == old(self)@ | (1u128 << bit),
    {
        self.0 = self.0 | (1u128 << bit);
    }

    /// Clears bit `bit`.
    pub fn unset(&mut self, bit: usize)
        requires
            bit < 128,
        ensures
            final(self)@ == old(self)@ & !(1u128 << bit),
    {
        self.0 = self.0 & !(1u128 << bit);
    }

    /// The position of the highest set bit, if there is one.
    pub fn max(&self) -> (r: Option<usize>)
        ensures
            r == (if self@ == 0 { None } else { Some(high_index(self@) as usize) }),
            r matches Some(position) ==> position < 128,
    {
        if self.0 == 0 {
            None
        } else {
            proof {
                lemma_high_index(self.0);
            }
            Some((128 - 1 - self.0.leading_zeros()) as usize)
        }
    }

    /// The mask of the bits that are not set.
    pub fn not(self) -> (r: Self)
        ensures
            r@ == !self@,
    {
        Bitmask(!self.0)
    }

    /// The mask of the bits that are set in both.
    pub fn bitand(self, rhs: Self) -> (r: Self)
        ensures
            r@ == self@ & rhs@,
    {
        Bitmask(self.0 & rhs.0)
    }

    /// The mask of the bits that are set in either.
    pub fn bitor(self, rhs: Self) -> (r: Self)
        ensures
            r@ == self@ | rhs@,
    {
        Bitmask(self.0 | rhs.0)
    }

    /// The mask of the bits that are set in one of the two.
    pub fn bitxor(self, rhs: Self) -> (r: Self)
        ensures
            r@ == self@ ^ rhs@,
    {
        Bitmask(self.0 ^ rhs.0)
    }

    /// Keeps the bits that are set in `rhs` too.
    pub fn bitand_assign(&mut self, rhs: Self)
        ensures
            final(self)@ == old(self)@ & rhs@,
    {
        self.0 = self.0 & rhs.0;
    }

    /// Adds the bits that are set in `rhs`.
    pub fn bitor_assign(&mut self, rhs: Self)
        ensures
            final(self)@ == old(self)@ | rhs@,
    {
        self.0 = self.0 | rhs.0;
    }

    /// Flips the bits that are set in `rhs`.
    pub fn bitxor_assign(&mut self, rhs: Self)
        ensures
            final(self)@ == old(self)@ ^ rhs@,
    {
        self.0 = self.0 ^ rhs.0;
    }

    /// Whether the two masks hold the same bits.
    pub fn same_as(&self, rhs: &Self) -> (r: bool)
        ensures
            r == (self@ == rhs@),
    {
        self.0 == rhs.0
    }
}

impl View for BitIter<u8> {
    type V = u8;

    closed spec fn view(&self) -> u8 {
        self.0
    }
}

impl BitIter<u8> {
    /// An iterator over the set bits of `val`.
    pub fn from(val: u8) -> (r: Self)
        ensures
            r@ == val,
    {
        BitIter(val)
    }

    /// The positions that are still to come, in the order in which they come.
    pub open spec fn remaining(&self) -> Seq<nat> {
        bit_indices(self@ as u128)
    }

    /// The next position, without consuming it.
    pub fn peek(&self) -> (r: Option<usize>)
        ensures
            r == (if self@ == 0 { None } else { Some(low_index(self@ as u128) as usize) }),
    {
        if self.0 != 0 {
            proof {
                lemma_u8_low_index(self.0);
            }
            Some(self.0.trailing_zeros() as usize)
        } else {
            None
        }
    }

    /// The next position, and the bit is consumed.
    pub fn next(&mut self) -> (r: Option<usize>)
        ensures
            old(self)@ == 0 ==> r.is_none() && final(self)@ == 0,
            old(self)@ != 0 ==> r == Some(old(self).remaining()[0] as usize) && r == Some(
                low_index(old(self)@ as u128) as usize,
            ),
            final(self)@ as u128 == drop_lowest(old(self)@ as u128),
            old(self)@ != 0 ==> final(self).remaining() == old(self).remaining().drop_first(),
    {
        if self.0 != 0 {
            proof {
                lemma_u8_low_index(self.0);
                lemma_bit_indices(self.0 as u128);
                assert(bit_indices(self.0 as u128).drop_first() =~= bit_indices(drop_lowest(self.0 as u128)));
            }
            let result = self.0.trailing_zeros();
            self.0 = self.0 & (self.0 - 1);
            Some(result as usize)
        } else {
            None
        }
    }

    /// How many positions are still to come.
    pub fn len(&self) -> (r: usize)
        ensures
            r == self.remaining().len(),
            r == popcount(self@ as u128),
    {
        proof {
            lemma_bit_indices(self.0 as u128);
            lemma_popcount_bound(self.0 as u128);
        }
        self.0.count_ones() as usize
    }
}

impl View for BitIter<u16> {
    type V = u16;

    closed spec fn view(&self) -> u16 {
        self.0
    }
}

impl BitIter<u16> {
    /// An iterator over the set bits of `val`.
    pub fn from(val: u16) -> (r: Self)
        ensures
            r@ == val,
    {
        BitIter(val)
    }

    /// The positions that are still to come, in the order in which they come.
    pub open spec fn remaining(&self) -> Seq<nat> {
        bit_indices(self@ as u128)
    }

    /// The next position, without consuming it.
    pub fn peek(&self) -> (r: Option<usize>)
        ensures
            r == (if self@ == 0 { None } else { Some(low_index(self@ as u128) as usize) }),
    {
        if self.0 != 0 {
            proof {
                lemma_u16_low_index(self.0);
            }
            Some(self.0.trailing_zeros() as usize)
        } else {
            None
        }
    }

    /// The next position, and the bit is consumed.
    pub fn next(&mut self) -> (r: Option<usize>)
        ensures
            old(self)@ == 0 ==> r.is_none() && final(self)@ == 0,
            old(self)@ != 0 ==> r == Some(old(self).remaining()[0] as usize) && r == Some(
                low_index(old(self)@ as u128) as usize,
            ),
            final(self)@ as u128 == drop_lowest(old(self)@ as u128),
            old(self)@ != 0 ==> final(self).remaining() == old(self).remaining().drop_first(),
    {
        if self.0 != 0 {
            proof {
                lemma_u16_low_index(self.0);
                lemma_bit_indices(self.0 as u128);
                assert(bit_indices(self.0 as u128).drop_first() =~= bit_indices(drop_lowest(self.0 as u128)));
            }
            let result = self.0.trailing_zeros();
            self.0 = self.0 & (self.0 - 1);
            Some(result as usize)
        } else {
            None
        }
    }

    /// How many positions are still to come.
    pub fn len(&self) -> (r: usize)
        ensures
            r == self.remaining().len(),
            r == popcount(self@ as u128),
    {
        proof {
            lemma_bit_indices(self.0 as u128);
            lemma_popcount_bound(self.0 as u128);
        }
        self.0.count_ones() as usize
    }
}

impl View for BitIter<u32> {
    type V = u32;

    closed spec fn view(&self) -> u32 {
        self.0
    }
}

impl BitIter<u32> {
    /// An iterator over the set bits of `val`.
    pub fn from(val: u32) -> (r: Self)
        ensures
            r@ == val,
    {
        BitIter(val)
    }

    /// The positions that are still to come, in the order in which they come.
    pub open spec fn remaining(&self) -> Seq<nat> {
        bit_indices(self@ as u128)
    }

    /// The next position, without consuming it.
    pub fn peek(&self) -> (r: Option<usize>)
        ensures
            r == (if self@ == 0 { None } else { Some(low_index(self@ as u128) as usize) }),
    {
        if self.0 != 0 {
            proof {
                lemma_u32_low_index(self.0);
            }
            Some(self.0.trailing_zeros() as usize)
        } else {
            None
        }
    }

    /// The next position, and the bit is consumed.
    pub fn next(&mut self) -> (r: Option<usize>)
        ensures
            old(self)@ == 0 ==> r.is_none() && final(self)@ == 0,
            old(self)@ != 0 ==> r == Some(old(self).remaining()[0] as usize) && r == Some(
                low_index(old(self)@ as u128) as usize,
            ),
            final(self)@ as u128 == drop_lowest(old(self)@ as u128),
            old(self)@ != 0 ==> final(self).remaining() == old(self).remaining().drop_first(),
    {
        if self.0 != 0 {
            proof {
                lemma_u32_low_index(self.0);
                lemma_bit_indices(self.0 as u128);
                assert(bit_indices(self.0 as u128).drop_first() =~= bit_indices(drop_lowest(self.0 as u128)));
            }
            let result = self.0.trailing_zeros();
            self.0 = self.0 & (self.0 - 1);
            Some(result as usize)
        } else {
            None
        }
    }

    /// How many positions are still to come.
    pub fn len(&self) -> (r: usize)
        ensures
            r == self.remaining().len(),
            r == popcount(self@ as u128),
    {
        proof {
            lemma_bit_indices(self.0 as u128);
            lemma_popcount_bound(self.0 as u128);
        }
        self.0.count_ones() as usize
    }
}

impl View for BitIter<u64> {
    type V = u64;

    closed spec fn view(&self) -> u64 {
        self.0
    }
}

impl BitIter<u64> {
    /// An iterator over the set bits of `val`.
    pub fn from(val: u64) -> (r: Self)
        ensures
            r@ == val,
    {
        BitIter(val)
    }

    /// The positions that are still to come, in the order in which they come.
    pub open spec fn remaining(&self) -> Seq<nat> {
        bit_indices(self@ as u128)
    }

    /// The next position, without consuming it.
    pub fn peek(&self) -> (r: Option<usize>)
        ensures
            r == (if self@ == 0 { None } else { Some(low_index(self@ as u128) as usize) }),
    {
        if self.0 != 0 {
            proof {
                lemma_u64_low_index(self.0);
            }
            Some(self.0.trailing_zeros() as usize)
        } else {
            None
        }
    }

    /// The next position, and the bit is consumed.
    pub fn next(&mut self) -> (r: Option<usize>)
        ensures
            old(self)@ == 0 ==> r.is_none() && final(self)@ == 0,
            old(self)@ != 0 ==> r == Some(old(self).remaining()[0] as usize) && r == Some(
                low_index(old(self)@ as u128) as usize,
            ),
            final(self)@ as u128 == drop_lowest(old(self)@ as u128),
            old(self)@ != 0 ==> final(self).remaining() == old(self).remaining().drop_first(),
    {
        if self.0 != 0 {
            proof {
                lemma_u64_low_index(self.0);
                lemma_bit_indices(self.0 as u128);
                assert(bit_indices(self.0 as u128).drop_first() =~= bit_indices(drop_lowest(self.0 as u128)));
            }
            let result = self.0.trailing_zeros();
            self.0 = self.0 & (self.0 - 1);
            Some(result as usize)
        } else {
            None
        }
    }

    /// How many positions are still to come.
    pub fn len(&self) -> (r: usize)
        ensures
            r == self.remaining().len(),
            r == popcount(self@ as u128),
    {
        proof {
            lemma_bit_indices(self.0 as u128);
            lemma_popcount_bound(self.0 as u128);
        }
        self.0.count_ones() as usize
    }
}

impl View for BitIter<u128> {
    type V = u128;

    closed spec fn view(&self) -> u128 {
        self.0
    }
}

impl BitIter<u128> {
    /// An iterator over the set bits of `val`.
    pub fn from(val: u128) -> (r: Self)
        ensures
            r@ == val,
    {
        BitIter(val)
    }

    /// The positions that are still to come, in the order in which they come.
    pub open spec fn remaining(&self) -> Seq<nat> {
        bit_indices(self@ as u128)
    }

    /// The next position, without consuming it.
    pub fn peek(&self) -> (r: Option<usize>)
        ensures
            r == (if self@ == 0 { None } else { Some(low_index(self@ as u128) as usize) }),
    {
        if self.0 != 0 {
            proof {
                lemma_low_index(self.0);
            }
            Some(self.0.trailing_zeros() as usize)
        } else {
            None
        }
    }

    /// The next position, and the bit is consumed.
    pub fn next(&mut self) -> (r: Option<usize>)
        ensures
            old(self)@ == 0 ==> r.is_none() && final(self)@ == 0,
            old(self)@ != 0 ==> r == Some(old(self).remaining()[0] as usize) && r == Some(
                low_index(old(self)@ as u128) as usize,
            ),
            final(self)@ as u128 == drop_lowest(old(self)@ as u128),
            old(self)@ != 0 ==> final(self).remaining() == old(self).remaining().drop_first(),
    {
        if self.0 != 0 {
            proof {
                lemma_low_index(self.0);
                lemma_bit_indices(self.0 as u128);
                assert(bit_indices(self.0 as u128).drop_first() =~= bit_indices(drop_lowest(self.0 as u128)));
            }
            let result = self.0.trailing_zeros();
            self.0 = self.0 & (self.0 - 1);
            Some(result as usize)
        } else {
            None
        }
    }

    /// How many positions are still to come.
    pub fn len(&self) -> (r: usize)
        ensures
            r == self.remaining().len(),
            r == popcount(self@ as u128),
    {
        proof {
            lemma_bit_indices(self.0 as u128);
            lemma_popcount_bound(self.0 as u128);
        }
        self.0.count_ones() as usize
    }
}

impl View for MaskIter<u8> {
    type V = u8;

    closed spec fn view(&self) -> u8 {
        self.0
    }
}

impl MaskIter<u8> {
    /// An iterator over the set bits of `val`.
    pub fn from(val: u8) -> (r: Self)
        ensures
            r@ == val,
    {
        MaskIter(val)
    }

    /// The masks that are still to come, in the order in which they come.
    pub open spec fn remaining(&self) -> Seq<u128> {
        bit_masks(self@ as u128)
    }

    /// The next mask, without consuming it.
    pub fn peek(&self) -> (r: Option<u8>)
        ensures
            self@ == 0 ==> r.is_none(),
            self@ != 0 ==> r.is_some() && r.unwrap() as u128 == lowest(self@ as u128),
    {
        if self.0 != 0 {
            proof {
                lemma_u8_low_index(self.0);
            }
            Some(self.0 ^ (self.0 & (self.0 - 1)))
        } else {
            None
        }
    }

    /// The next mask, and the bit is consumed.
    pub fn next(&mut self) -> (r: Option<u8>)
        ensures
            old(self)@ == 0 ==> r.is_none() && final(self)@ == 0,
            old(self)@ != 0 ==> r.is_some() && r.unwrap() as u128 == old(self).remaining()[0],
            final(self)@ as u128 == drop_lowest(old(self)@ as u128),
            old(self)@ != 0 ==> final(self).remaining() == old(self).remaining().drop_first(),
    {
        if self.0 != 0 {
            proof {
                lemma_u8_low_index(self.0);
                assert(bit_masks(self.0 as u128).drop_first() =~= bit_masks(drop_lowest(self.0 as u128)));
            }
            let rest = self.0 & (self.0 - 1);
            let result = self.0 ^ rest;
            self.0 = rest;
            Some(result)
        } else {
            None
        }
    }

    /// How many masks are still to come.
    pub fn len(&self) -> (r: usize)
        ensures
            r == self.remaining().len(),
            r == popcount(self@ as u128),
    {
        proof {
            lemma_bit_masks(self.0 as u128);
            lemma_popcount_bound(self.0 as u128);
        }
        self.0.count_ones() as usize
    }
}

impl View for MaskIter<u16> {
    type V = u16;

    closed spec fn view(&self) -> u16 {
        self.0
    }
}

impl MaskIter<u16> {
    /// An iterator over the set bits of `val`.
    pub fn from(val: u16) -> (r: Self)
        ensures
            r@ == val,
    {
        MaskIter(val)
    }

    /// The masks that are still to come, in the order in which they come.
    pub open spec fn remaining(&self) -> Seq<u128> {
        bit_masks(self@ as u128)
    }

    /// The next mask, without consuming it.
    pub fn peek(&self) -> (r: Option<u16>)
        ensures
            self@ == 0 ==> r.is_none(),
            self@ != 0 ==> r.is_some() && r.unwrap() as u128 == lowest(self@ as u128),
    {
        if self.0 != 0 {
            proof {
                lemma_u16_low_index(self.0);
            }
            Some(self.0 ^ (self.0 & (self.0 - 1)))
        } else {
            None
        }
    }

    /// The next mask, and the bit is consumed.
    pub fn next(&mut self) -> (r: Option<u16>)
        ensures
            old(self)@ == 0 ==> r.is_none() && final(self)@ == 0,
            old(self)@ != 0 ==> r.is_some() && r.unwrap() as u128 == old(self).remaining()[0],
            final(self)@ as u128 == drop_lowest(old(self)@ as u128),
            old(self)@ != 0 ==> final(self).remaining() == old(self).remaining().drop_first(),
    {
        if self.0 != 0 {
            proof {
                lemma_u16_low_index(self.0);
                assert(bit_masks(self.0 as u128).drop_first() =~= bit_masks(drop_lowest(self.0 as u128)));
            }
            let rest = self.0 & (self.0 - 1);
            let result = self.0 ^ rest;
            self.0 = rest;
            Some(result)
        } else {
            None
        }
    }

    /// How many masks are still to come.
    pub fn len(&self) -> (r: usize)
        ensures
            r == self.remaining().len(),
            r == popcount(self@ as u128),
    {
        proof {
            lemma_bit_masks(self.0 as u128);
            lemma_popcount_bound(self.0 as u128);
        }
        self.0.count_ones() as usize
    }
}

impl View for MaskIter<u32> {
    type V = u32;

    closed spec fn view(&self) -> u32 {
        self.0
    }
}

impl MaskIter<u32> {
    /// An iterator over the set bits of `val`.
    pub fn from(val: u32) -> (r: Self)
        ensures
            r@ == val,
    {
        MaskIter(val)
    }

    /// The masks that are still to come, in the order in which they come.
    pub open spec fn remaining(&self) -> Seq<u128> {
        bit_masks(self@ as u128)
    }

    /// The next mask, without consuming it.
    pub fn peek(&self) -> (r: Option<u32>)
        ensures
            self@ == 0 ==> r.is_none(),
            self@ != 0 ==> r.is_some() && r.unwrap() as u128 == lowest(self@ as u128),
    {
        if self.0 != 0 {
            proof {
                lemma_u32_low_index(self.0);
            }
            Some(self.0 ^ (self.0 & (self.0 - 1)))
        } else {
            None
        }
    }

    /// The next mask, and the bit is consumed.
    pub fn next(&mut self) -> (r: Option<u32>)
        ensures
            old(self)@ == 0 ==> r.is_none() && final(self)@ == 0,
            old(self)@ != 0 ==> r.is_some() && r.unwrap() as u128 == old(self).remaining()[0],
            final(self)@ as u128 == drop_lowest(old(self)@ as u128),
            old(self)@ != 0 ==> final(self).remaining() == old(self).remaining().drop_first(),
    {
        if self.0 != 0 {
            proof {
                lemma_u32_low_index(self.0);
                assert(bit_masks(self.0 as u128).drop_first() =~= bit_masks(drop_lowest(self.0 as u128)));
            }
            let rest = self.0 & (self.0 - 1);
            let result = self.0 ^ rest;
            self.0 = rest;
            Some(result)
        } else {
            None
        }
    }

    /// How many masks are still to come.
    pub fn len(&self) -> (r: usize)
        ensures
            r == self.remaining().len(),
            r == popcount(self@ as u128),
    {
        proof {
            lemma_bit_masks(self.0 as u128);
            lemma_popcount_bound(self.0 as u128);
        }
        self.0.count_ones() as usize
    }
}

impl View for MaskIter<u64> {
    type V = u64;

    closed spec fn view(&self) -> u64 {
        self.0
    }
}

impl MaskIter<u64> {
    /// An iterator over the set bits of `val`.
    pub fn from(val: u64) -> (r: Self)
        ensures
            r@ == val,
    {
        MaskIter(val)
    }

    /// The masks that are still to come, in the order in which they come.
    pub open spec fn remaining(&self) -> Seq<u128> {
        bit_masks(self@ as u128)
    }

    /// The next mask, without consuming it.
    pub fn peek(&self) -> (r: Option<u64>)
        ensures
            self@ == 0 ==> r.is_none(),
            self@ != 0 ==> r.is_some() && r.unwrap() as u128 == lowest(self@ as u128),
    {
        if self.0 != 0 {
            proof {
                lemma_u64_low_index(self.0);
            }
            Some(self.0 ^ (self.0 & (self.0 - 1)))
        } else {
            None
        }
    }

    /// The next mask, and the bit is consumed.
    pub fn next(&mut self) -> (r: Option<u64>)
        ensures
            old(self)@ == 0 ==> r.is_none() && final(self)@ == 0,
            old(self)@ != 0 ==> r.is_some() && r.unwrap() as u128 == old(self).remaining()[0],
            final(self)@ as u128 == drop_lowest(old(self)@ as u128),
            old(self)@ != 0 ==> final(self).remaining() == old(self).remaining().drop_first(),
    {
        if self.0 != 0 {
            proof {
                lemma_u64_low_index(self.0);
                assert(bit_masks(self.0 as u128).drop_first() =~= bit_masks(drop_lowest(self.0 as u128)));
            }
            let rest = self.0 & (self.0 - 1);
            let result = self.0 ^ rest;
            self.0 = rest;
            Some(result)
        } else {
            None
        }
    }

    /// How many masks are still to come.
    pub fn len(&self) -> (r: usize)
        ensures
            r == self.remaining().len(),
            r == popcount(self@ as u128),
    {
        proof {
            lemma_bit_masks(self.0 as u128);
            lemma_popcount_bound(self.0 as u128);
        }
        self.0.count_ones() as usize
    }
}

impl View for MaskIter<u128> {
    type V = u128;

    closed spec fn view(&self) -> u128 {
        self.0
    }
}

impl MaskIter<u128> {
    /// An iterator over the set bits of `val`.
    pub fn from(val: u128) -> (r: Self)
        ensures
            r@ == val,
    {
        MaskIter(val)
    }

    /// The masks that are still to come, in the order in which they come.
    pub open spec fn remaining(&self) -> Seq<u128> {
        bit_masks(self@ as u128)
    }

    /// The next mask, without consuming it.
    pub fn peek(&self) -> (r: Option<u128>)
        ensures
            self@ == 0 ==> r.is_none(),
            self@ != 0 ==> r.is_some() && r.unwrap() as u128 == lowest(self@ as u128),
    {
        if self.0 != 0 {
            proof {
                
            }
            Some(self.0 ^ (self.0 & (self.0 - 1)))
        } else {
            None
        }
    }

    /// The next mask, and the bit is consumed.
    pub fn next(&mut self) -> (r: Option<u128>)
        ensures
            old(self)@ == 0 ==> r.is_none() && final(self)@ == 0,
            old(self)@ != 0 ==> r.is_some() && r.unwrap() as u128 == old(self).remaining()[0],
            final(self)@ as u128 == drop_lowest(old(self)@ as u128),
            old(self)@ != 0 ==> final(self).remaining() == old(self).remaining().drop_first(),
    {
        if self.0 != 0 {
            proof {
                
                assert(bit_masks(self.0 as u128).drop_first() =~= bit_masks(drop_lowest(self.0 as u128)));
            }
            let rest = self.0 & (self.0 - 1);
            let result = self.0 ^ rest;
            self.0 = rest;
            Some(result)
        } else {
            None
        }
    }

    /// How many masks are still to come.
    pub fn len(&self) -> (r: usize)
        ensures
            r == self.remaining().len(),
            r == popcount(self@ as u128),
    {
        proof {
            lemma_bit_masks(self.0 as u128);
            lemma_popcount_bound(self.0 as u128);
        }
        self.0.count_ones() as usize
    }
}

impl SubsetIter<u8> {
    /// The mask whose subsets are walked.
    pub closed spec fn whole(&self) -> u8 {
        self.0
    }

    /// The subset that comes next, if one is left.
    pub closed spec fn upcoming(&self) -> Option<u8> {
        self.1
    }

    /// The subsets that are still to come, in the order in which they come.
    pub open spec fn remaining(&self) -> Seq<u128> {
        match self.upcoming() {
            None => Seq::empty(),
            Some(s) => subsets_from(self.whole() as u128, s as u128),
        }
    }

    /// Every iterator keeps its next subset within the whole mask.
    pub closed spec fn wf(&self) -> bool {
        match self.1 {
            None => true,
            Some(s) => (s as u128) & (self.0 as u128) == s as u128,
        }
    }

    /// An iterator over the subsets of `val`.
    pub fn from(val: u8) -> (r: Self)
        ensures
            r.wf(),
            r.whole() == val,
            r.upcoming() == Some(val),
            r.remaining() == subsets_from(val as u128, val as u128),
    {
        proof {
            lemma_next_subset(val as u128, 1);
        }
        SubsetIter(val, Some(val))
    }

    /// The next subset, which is consumed.
    pub fn next(&mut self) -> (r: Option<Bitmask<u8>>)
        requires
            old(self).wf(),
        ensures
            final(self).wf(),
            final(self).whole() == old(self).whole(),
            old(self).remaining().len() == 0 ==> r.is_none() && final(self).remaining().len() == 0,
            old(self).remaining().len() > 0 ==> r.is_some() && r.unwrap()@ as u128 == old(self).remaining()[0]
                && final(self).remaining() == old(self).remaining().drop_first(),
            match old(self).upcoming() {
                None => r is None && final(self).upcoming() is None,
                Some(s) => r is Some && r.unwrap()@ == s && final(self).upcoming() == (if s == 0 {
                    None
                } else {
                    Some(((s - 1) as u8) & old(self).whole())
                }),
            },
    {
        match self.1 {
            Some(subset) => {
                proof {
                    let (x, s) = (self.0 as u128, subset as u128);
                    if subset != 0 {
                        lemma_next_subset(x, s);
                        assert(((((subset - 1) as u8) & self.0) as u128) == next_subset(x, s));
                        assert(subsets_from(x, s).drop_first() =~= subsets_from(x, next_subset(x, s)));
                    } else {
                        assert(subsets_from(x, s).drop_first() =~= Seq::<u128>::empty());
                    }
                }
                if subset == 0 {
                    self.1 = None;
                } else {
                    self.1 = Some((subset - 1) & self.0);
                }
                Some(Bitmask::<u8>::from(subset))
            },
            None => None,
        }
    }
}

impl SubsetIter<u16> {
    /// The mask whose subsets are walked.
    pub closed spec fn whole(&self) -> u16 {
        self.0
    }

    /// The subset that comes next, if one is left.
    pub closed spec fn upcoming(&self) -> Option<u16> {
        self.1
    }

    /// The subsets that are still to come, in the order in which they come.
    pub open spec fn remaining(&self) -> Seq<u128> {
        match self.upcoming() {
            None => Seq::empty(),
            Some(s) => subsets_from(self.whole() as u128, s as u128),
        }
    }

    /// Every iterator keeps its next subset within the whole mask.
    pub closed spec fn wf(&self) -> bool {
        match self.1 {
            None => true,
            Some(s) => (s as u128) & (self.0 as u128) == s as u128,
        }
    }

    /// An iterator over the subsets of `val`.
    pub fn from(val: u16) -> (r: Self)
        ensures
            r.wf(),
            r.whole() == val,
            r.upcoming() == Some(val),
            r.remaining() == subsets_from(val as u128, val as u128),
    {
        proof {
            lemma_next_subset(val as u128, 1);
        }
        SubsetIter(val, Some(val))
    }

    /// The next subset, which is consumed.
    pub fn next(&mut self) -> (r: Option<Bitmask<u16>>)
        requires
            old(self).wf(),
        ensures
            final(self).wf(),
            final(self).whole() == old(self).whole(),
            old(self).remaining().len() == 0 ==> r.is_none() && final(self).remaining().len() == 0,
            old(self).remaining().len() > 0 ==> r.is_some() && r.unwrap()@ as u128 == old(self).remaining()[0]
                && final(self).remaining() == old(self).remaining().drop_first(),
            match old(self).upcoming() {
                None => r is None && final(self).upcoming() is None,
                Some(s) => r is Some && r.unwrap()@ == s && final(self).upcoming() == (if s == 0 {
                    None
                } else {
                    Some(((s - 1) as u16) & old(self).whole())
                }),
            },
    {
        match self.1 {
            Some(subset) => {
                proof {
                    let (x, s) = (self.0 as u128, subset as u128);
                    if subset != 0 {
                        lemma_next_subset(x, s);
                        assert(((((subset - 1) as u16) & self.0) as u128) == next_subset(x, s));
                        assert(subsets_from(x, s).drop_first() =~= subsets_from(x, next_subset(x, s)));
                    } else {
                        assert(subsets_from(x, s).drop_first() =~= Seq::<u128>::empty());
                    }
                }
                if subset == 0 {
                    self.1 = None;
                } else {
                    self.1 = Some((subset - 1) & self.0);
                }
                Some(Bitmask::<u16>::from(subset))
            },
            None => None,
        }
    }
}

impl SubsetIter<u32> {
    /// The mask whose subsets are walked.
    pub closed spec fn whole(&self) -> u32 {
        self.0
    }

    /// The subset that comes next, if one is left.
    pub closed spec fn upcoming(&self) -> Option<u32> {
        self.1
    }

    /// The subsets that are still to come, in the order in which they come.
    pub open spec fn remaining(&self) -> Seq<u128> {
        match self.upcoming() {
            None => Seq::empty(),
            Some(s) => subsets_from(self.whole() as u128, s as u128),
        }
    }

    /// Every iterator keeps its next subset within the whole mask.
    pub closed spec fn wf(&self) -> bool {
        match self.1 {
            None => true,
            Some(s) => (s as u128) & (self.0 as u128) == s as u128,
        }
    }

    /// An iterator over the subsets of `val`.
    pub fn from(val: u32) -> (r: Self)
        ensures
            r.wf(),
            r.whole() == val,
            r.upcoming() == Some(val),
            r.remaining() == subsets_from(val as u128, val as u128),
    {
        proof {
            lemma_next_subset(val as u128, 1);
        }
        SubsetIter(val, Some(val))
    }

    /// The next subset, which is consumed.
    pub fn next(&mut self) -> (r: Option<Bitmask<u32>>)
        requires
            old(self).wf(),
        ensures
            final(self).wf(),
            final(self).whole() == old(self).whole(),
            old(self).remaining().len() == 0 ==> r.is_none() && final(self).remaining().len() == 0,
            old(self).remaining().len() > 0 ==> r.is_some() && r.unwrap()@ as u128 == old(self).remaining()[0]
                && final(self).remaining() == old(self).remaining().drop_first(),
            match old(self).upcoming() {
                None => r is None && final(self).upcoming() is None,
                Some(s) => r is Some && r.unwrap()@ == s && final(self).upcoming() == (if s == 0 {
                    None
                } else {
                    Some(((s - 1) as u32) & old(self).whole())
                }),
            },
    {
        match self.1 {
            Some(subset) => {
                proof {
                    let (x, s) = (self.0 as u128, subset as u128);
                    if subset != 0 {
                        lemma_next_subset(x, s);
                        assert(((((subset - 1) as u32) & self.0) as u128) == next_subset(x, s));
                        assert(subsets_from(x, s).drop_first() =~= subsets_from(x, next_subset(x, s)));
                    } else {
                        assert(subsets_from(x, s).drop_first() =~= Seq::<u128>::empty());
                    }
                }
                if subset == 0 {
                    self.1 = None;
                } else {
                    self.1 = Some((subset - 1) & self.0);
                }
                Some(Bitmask::<u32>::from(subset))
            },
            None => None,
        }
    }
}

impl SubsetIter<u64> {
    /// The mask whose subsets are walked.
    pub closed spec fn whole(&self) -> u64 {
        self.0
    }

    /// The subset that comes next, if one is left.
    pub closed spec fn upcoming(&self) -> Option<u64> {
        self.1
    }

    /// The subsets that are still to come, in the order in which they come.
    pub open spec fn remaining(&self) -> Seq<u128> {
        match self.upcoming() {
            None => Seq::empty(),
            Some(s) => subsets_from(self.whole() as u128, s as u128),
        }
    }

    /// Every iterator keeps its next subset within the whole mask.
    pub closed spec fn wf(&self) -> bool {
        match self.1 {
            None => true,
            Some(s) => (s as u128) & (self.0 as u128) == s as u128,
        }
    }

    /// An iterator over the subsets of `val`.
    pub fn from(val: u64) -> (r: Self)
        ensures
            r.wf(),
            r.whole() == val,
            r.upcoming() == Some(val),
            r.remaining() == subsets_from(val as u128, val as u128),
    {
        proof {
            lemma_next_subset(val as u128, 1);
        }
        SubsetIter(val, Some(val))
    }

    /// The next subset, which is consumed.
    pub fn next(&mut self) -> (r: Option<Bitmask<u64>>)
        requires
            old(self).wf(),
        ensures
            final(self).wf(),
            final(self).whole() == old(self).whole(),
            old(self).remaining().len() == 0 ==> r.is_none() && final(self).remaining().len() == 0,
            old(self).remaining().len() > 0 ==> r.is_some() && r.unwrap()@ as u128 == old(self).remaining()[0]
                && final(self).remaining() == old(self).remaining().drop_first(),
            match old(self).upcoming() {
                None => r is None && final(self).upcoming() is None,
                Some(s) => r is Some && r.unwrap()@ == s && final(self).upcoming() == (if s == 0 {
                    None
                } else {
                    Some(((s - 1) as u64) & old(self).whole())
                }),
            },
    {
        match self.1 {
            Some(subset) => {
                proof {
                    let (x, s) = (self.0 as u128, subset as u128);
                    if subset != 0 {
                        lemma_next_subset(x, s);
                        assert(((((subset - 1) as u64) & self.0) as u128) == next_subset(x, s));
                        assert(subsets_from(x, s).drop_first() =~= subsets_from(x, next_subset(x, s)));
                    } else {
                        assert(subsets_from(x, s).drop_first() =~= Seq::<u128>::empty());
                    }
                }
                if subset == 0 {
                    self.1 = None;
                } else {
                    self.1 = Some((subset - 1) & self.0);
                }
                Some(Bitmask::<u64>::from(subset))
            },
            None => None,
        }
    }
}

impl SubsetIter<u128> {
    /// The mask whose subsets are walked.
    pub closed spec fn whole(&self) -> u128 {
        self.0
    }

    /// The subset that comes next, if one is left.
    pub closed spec fn upcoming(&self) -> Option<u128> {
        self.1
    }

    /// The subsets that are still to come, in the order in which they come.
    pub open spec fn remaining(&self) -> Seq<u128> {
        match self.upcoming() {
            None => Seq::empty(),
            Some(s) => subsets_from(self.whole() as u128, s as u128),
        }
    }

    /// Every iterator keeps its next subset within the whole mask.
    pub closed spec fn wf(&self) -> bool {
        match self.1 {
            None => true,
            Some(s) => (s as u128) & (self.0 as u128) == s as u128,
        }
    }

    /// An iterator over the subsets of `val`.
    pub fn from(val: u128) -> (r: Self)
        ensures
            r.wf(),
            r.whole() == val,
            r.upcoming() == Some(val),
            r.remaining() == subsets_from(val as u128, val as u128),
    {
        proof {
            lemma_next_subset(val as u128, 1);
        }
        SubsetIter(val, Some(val))
    }

    /// The next subset, which is consumed.
    pub fn next(&mut self) -> (r: Option<Bitmask<u128>>)
        requires
            old(self).wf(),
        ensures
            final(self).wf(),
            final(self).whole() == old(self).whole(),
            old(self).remaining().len() == 0 ==> r.is_none() && final(self).remaining().len() == 0,
            old(self).remaining().len() > 0 ==> r.is_some() && r.unwrap()@ as u128 == old(self).remaining()[0]
                && final(self).remaining() == old(self).remaining().drop_first(),
            match old(self).upcoming() {
                None => r is None && final(self).upcoming() is None,
                Some(s) => r is Some && r.unwrap()@ == s && final(self).upcoming() == (if s == 0 {
                    None
                } else {
                    Some(((s - 1) as u128) & old(self).whole())
                }),
            },
    {
        match self.1 {
            Some(subset) => {
                proof {
                    let (x, s) = (self.0 as u128, subset as u128);
                    if subset != 0 {
                        lemma_next_subset(x, s);
                        assert(((((subset - 1) as u128) & self.0) as u128) == next_subset(x, s));
                        assert(subsets_from(x, s).drop_first() =~= subsets_from(x, next_subset(x, s)));
                    } else {
                        assert(subsets_from(x, s).drop_first() =~= Seq::<u128>::empty());
                    }
                }
                if subset == 0 {
                    self.1 = None;
                } else {
                    self.1 = Some((subset - 1) & self.0);
                }
                Some(Bitmask::<u128>::from(subset))
            },
            None => None,
        }
    }
}

} // verus!
