//! Iteration over the set bits of a plain integer.

use vstd::prelude::*;
use crate::bits::{
    bit_indices, bit_masks, drop_lowest, lemma_bit_indices, lemma_bit_masks, low_index, lowest, popcount,
};
use crate::bits_std::{
    lemma_popcount_bound, lemma_u16_low_index, lemma_u32_low_index, lemma_u64_low_index, lemma_u8_low_index,
};

verus! {

/// Yields the positions of the set bits, lowest first.
pub struct BitIter<T>(T);

/// Yields each set bit as a mask of its own, lowest first.
pub struct MaskIter<T>(T);

/// `x` without its lowest set bit.
pub open spec fn without_lowest8(x: u8) -> u8 {
    if x == 0 {
        0
    } else {
        x & ((x - 1) as u8)
    }
}

/// The lowest set bit of `x` as a mask; 0 where `x` is 0.
pub open spec fn lowest8(x: u8) -> u8 {
    x ^ without_lowest8(x)
}

/// `x` without its lowest set bit.
pub open spec fn without_lowest16(x: u16) -> u16 {
    if x == 0 {
        0
    } else {
        x & ((x - 1) as u16)
    }
}

/// The lowest set bit of `x` as a mask; 0 where `x` is 0.
pub open spec fn lowest16(x: u16) -> u16 {
    x ^ without_lowest16(x)
}

/// `x` without its lowest set bit.
pub open spec fn without_lowest32(x: u32) -> u32 {
    if x == 0 {
        0
    } else {
        x & ((x - 1) as u32)
    }
}

/// The lowest set bit of `x` as a mask; 0 where `x` is 0.
pub open spec fn lowest32(x: u32) -> u32 {
    x ^ without_lowest32(x)
}

/// `x` without its lowest set bit.
pub open spec fn without_lowest64(x: u64) -> u64 {
    if x == 0 {
        0
    } else {
        x & ((x - 1) as u64)
    }
}

/// The lowest set bit of `x` as a mask; 0 where `x` is 0.
pub open spec fn lowest64(x: u64) -> u64 {
    x ^ without_lowest64(x)
}

impl View for BitIter<u8> {
    type V = u8;

    closed spec fn view(&self) -> u8 {
        self.0
    }
}

impl BitIter<u8> {
    /// An iterator over the set bits of `val`.
    pub fn from(val: u8) -> (r: Self)
        ensures
            r@ == val,
    {
        BitIter(val)
    }

    /// The positions that are still to come, in the order in which they come.
    pub open spec fn remaining(&self) -> Seq<nat> {
        bit_indices(self@ as u128)
    }

    /// The next position, and the bit is consumed.
    pub fn next(&mut self) -> (r: Option<usize>)
        ensures
            old(self)@ == 0 ==> r.is_none() && final(self)@ == 0,
            old(self)@ != 0 ==> r == Some(old(self).remaining()[0] as usize) && r == Some(
                low_index(old(self)@ as u128) as usize,
            ),
            final(self)@ as u128 == drop_lowest(old(self)@ as u128),
            old(self)@ != 0 ==> final(self).remaining() == old(self).remaining().drop_first(),
    {
        if self.0 != 0 {
            proof {
                lemma_u8_low_index(self.0);
                lemma_bit_indices(self.0 as u128);
                assert(bit_indices(self.0 as u128).drop_first() =~= bit_indices(drop_lowest(self.0 as u128)));
            }
            let result = self.0.trailing_zeros();
            self.0 = self.0 & (self.0 - 1);
            Some(result as usize)
        } else {
            None
        }
    }

    /// How many positions are still to come.
    pub fn len(&self) -> (r: usize)
        ensures
            r == self.remaining().len(),
            r == popcount(self@ as u128),
    {
        proof {
            lemma_bit_indices(self.0 as u128);
            lemma_popcount_bound(self.0 as u128);
        }
        self.0.count_ones() as usize
    }
}

impl View for BitIter<u16> {
    type V = u16;

    closed spec fn view(&self) -> u16 {
        self.0
    }
}

impl BitIter<u16> {
    /// An iterator over the set bits of `val`.
    pub fn from(val: u16) -> (r: Self)
        ensures
            r@ == val,
    {
        BitIter(val)
    }

    /// The positions that are still to come, in the order in which they come.
    pub open spec fn remaining(&self) -> Seq<nat> {
        bit_indices(self@ as u128)
    }

    /// The next position, and the bit is consumed.
    pub fn next(&mut self) -> (r: Option<usize>)
        ensures
            old(self)@ == 0 ==> r.is_none() && final(self)@ == 0,
            old(self)@ != 0 ==> r == Some(old(self).remaining()[0] as usize) && r == Some(
                low_index(old(self)@ as u128) as usize,
            ),
            final(self)@ as u128 == drop_lowest(old(self)@ as u128),
            old(self)@ != 0 ==> final(self).remaining() == old(self).remaining().drop_first(),
    {
        if self.0 != 0 {
            proof {
                lemma_u16_low_index(self.0);
                lemma_bit_indices(self.0 as u128);
                assert(bit_indices(self.0 as u128).drop_first() =~= bit_indices(drop_lowest(self.0 as u128)));
            }
            let result = self.0.trailing_zeros();
            self.0 = self.0 & (self.0 - 1);
            Some(result as usize)
        } else {
            None
        }
    }

    /// How many positions are still to come.
    pub fn len(&self) -> (r: usize)
        ensures
            r == self.remaining().len(),
            r == popcount(self@ as u128),
    {
        proof {
            lemma_bit_indices(self.0 as u128);
            lemma_popcount_bound(self.0 as u128);
        }
        self.0.count_ones() as usize
    }
}

impl View for BitIter<u32> {
    type V = u32;

    closed spec fn view(&self) -> u32 {
        self.0
    }
}

impl BitIter<u32> {
    /// An iterator over the set bits of `val`.
    pub fn from(val: u32) -> (r: Self)
        ensures
            r@ == val,
    {
        BitIter(val)
    }

    /// The positions that are still to come, in the order in which they come.
    pub open spec fn remaining(&self) -> Seq<nat> {
        bit_indices(self@ as u128)
    }

    /// The next position, and the bit is consumed.
    pub fn next(&mut self) -> (r: Option<usize>)
        ensures
            old(self)@ == 0 ==> r.is_none() && final(self)@ == 0,
            old(self)@ != 0 ==> r == Some(old(self).remaining()[0] as usize) && r == Some(
                low_index(old(self)@ as u128) as usize,
            ),
            final(self)@ as u128 == drop_lowest(old(self)@ as u128),
            old(self)@ != 0 ==> final(self).remaining() == old(self).remaining().drop_first(),
    {
        if self.0 != 0 {
            proof {
                lemma_u32_low_index(self.0);
                lemma_bit_indices(self.0 as u128);
                assert(bit_indices(self.0 as u128).drop_first() =~= bit_indices(drop_lowest(self.0 as u128)));
            }
            let result = self.0.trailing_zeros();
            self.0 = self.0 & (self.0 - 1);
            Some(result as usize)
        } else {
            None
        }
    }

    /// How many positions are still to come.
    pub fn len(&self) -> (r: usize)
        ensures
            r == self.remaining().len(),
            r == popcount(self@ as u128),
    {
        proof {
            lemma_bit_indices(self.0 as u128);
            lemma_popcount_bound(self.0 as u128);
        }
        self.0.count_ones() as usize
    }
}

impl View for BitIter<u64> {
    type V = u64;

    closed spec fn view(&self) -> u64 {
        self.0
    }
}

impl BitIter<u64> {
    /// An iterator over the set bits of `val`.
    pub fn from(val: u64) -> (r: Self)
        ensures
            r@ == val,
    {
        BitIter(val)
    }

    /// The positions that are still to come, in the order in which they come.
    pub open spec fn remaining(&self) -> Seq<nat> {
        bit_indices(self@ as u128)
    }

    /// The next position, and the bit is consumed.
    pub fn next(&mut self) -> (r: Option<usize>)
        ensures
            old(self)@ == 0 ==> r.is_none() && final(self)@ == 0,
            old(self)@ != 0 ==> r == Some(old(self).remaining()[0] as usize) && r == Some(
                low_index(old(self)@ as u128) as usize,
            ),
            final(self)@ as u128 == drop_lowest(old(self)@ as u128),
            old(self)@ != 0 ==> final(self).remaining() == old(self).remaining().drop_first(),
    {
        if self.0 != 0 {
            proof {
                lemma_u64_low_index(self.0);
                lemma_bit_indices(self.0 as u128);
                assert(bit_indices(self.0 as u128).drop_first() =~= bit_indices(drop_lowest(self.0 as u128)));
            }
            let result = self.0.trailing_zeros();
            self.0 = self.0 & (self.0 - 1);
            Some(result as usize)
        } else {
            None
        }
    }

    /// How many positions are still to come.
    pub fn len(&self) -> (r: usize)
        ensures
            r == self.remaining().len(),
            r == popcount(self@ as u128),
    {
        proof {
            lemma_bit_indices(self.0 as u128);
            lemma_popcount_bound(self.0 as u128);
        }
        self.0.count_ones() as usize
    }
}

impl View for MaskIter<u8> {
    type V = u8;

    closed spec fn view(&self) -> u8 {
        self.0
    }
}

impl MaskIter<u8> {
    /// An iterator over the set bits of `val`.
    pub fn from(val: u8) -> (r: Self)
        ensures
            r@ == val,
    {
        MaskIter(val)
    }

    /// The masks that are still to come, in the order in which they come.
    pub open spec fn remaining(&self) -> Seq<u128> {
        bit_masks(self@ as u128)
    }

    /// The next mask, without consuming it.
    pub fn peek(&self) -> (r: Option<u8>)
        ensures
            r == (if self@ == 0 { None } else { Some(lowest8(self@)) }),
            self@ == 0 ==> r.is_none(),
            self@ != 0 ==> r.is_some() && r.unwrap() as u128 == lowest(self@ as u128),
    {
        if self.0 != 0 {
            proof {
                lemma_u8_low_index(self.0);
            }
            Some(self.0 ^ (self.0 & (self.0 - 1)))
        } else {
            None
        }
    }

    /// The next mask, and the bit is consumed.
    pub fn next(&mut self) -> (r: Option<u8>)
        ensures
            r == (if old(self)@ == 0 { None } else { Some(lowest8(old(self)@)) }),
            final(self)@ == without_lowest8(old(self)@),
            old(self)@ == 0 ==> r.is_none() && final(self)@ == 0,
            old(self)@ != 0 ==> r.is_some() && r.unwrap() as u128 == old(self).remaining()[0],
            final(self)@ as u128 == drop_lowest(old(self)@ as u128),
            old(self)@ != 0 ==> final(self).remaining() == old(self).remaining().drop_first(),
    {
        if self.0 != 0 {
            proof {
                lemma_u8_low_index(self.0);
                assert(bit_masks(self.0 as u128).drop_first() =~= bit_masks(drop_lowest(self.0 as u128)));
            }
            let rest = self.0 & (self.0 - 1);
            let result = self.0 ^ rest;
            self.0 = rest;
            Some(result)
        } else {
            None
        }
    }

    /// How many masks are still to come.
    pub fn len(&self) -> (r: usize)
        ensures
            r == self.remaining().len(),
            r == popcount(self@ as u128),
    {
        proof {
            lemma_bit_masks(self.0 as u128);
            lemma_popcount_bound(self.0 as u128);
        }
        self.0.count_ones() as usize
    }
}

impl View for MaskIter<u16> {
    type V = u16;

    closed spec fn view(&self) -> u16 {
        self.0
    }
}

impl MaskIter<u16> {
    /// An iterator over the set bits of `val`.
    pub fn from(val: u16) -> (r: Self)
        ensures
            r@ == val,
    {
        MaskIter(val)
    }

    /// The masks that are still to come, in the order in which they come.
    pub open spec fn remaining(&self) -> Seq<u128> {
        bit_masks(self@ as u128)
    }

    /// The next mask, without consuming it.
    pub fn peek(&self) -> (r: Option<u16>)
        ensures
            r == (if self@ == 0 { None } else { Some(lowest16(self@)) }),
            self@ == 0 ==> r.is_none(),
            self@ != 0 ==> r.is_some() && r.unwrap() as u128 == lowest(self@ as u128),
    {
        if self.0 != 0 {
            proof {
                lemma_u16_low_index(self.0);
            }
            Some(self.0 ^ (self.0 & (self.0 - 1)))
        } else {
            None
        }
    }

    /// The next mask, and the bit is consumed.
    pub fn next(&mut self) -> (r: Option<u16>)
        ensures
            r == (if old(self)@ == 0 { None } else { Some(lowest16(old(self)@)) }),
            final(self)@ == without_lowest16(old(self)@),
            old(self)@ == 0 ==> r.is_none() && final(self)@ == 0,
            old(self)@ != 0 ==> r.is_some() && r.unwrap() as u128 == old(self).remaining()[0],
            final(self)@ as u128 == drop_lowest(old(self)@ as u128),
            old(self)@ != 0 ==> final(self).remaining() == old(self).remaining().drop_first(),
    {
        if self.0 != 0 {
            proof {
                lemma_u16_low_index(self.0);
                assert(bit_masks(self.0 as u128).drop_first() =~= bit_masks(drop_lowest(self.0 as u128)));
            }
            let rest = self.0 & (self.0 - 1);
            let result = self.0 ^ rest;
            self.0 = rest;
            Some(result)
        } else {
            None
        }
    }

    /// How many masks are still to come.
    pub fn len(&self) -> (r: usize)
        ensures
            r == self.remaining().len(),
            r == popcount(self@ as u128),
    {
        proof {
            lemma_bit_masks(self.0 as u128);
            lemma_popcount_bound(self.0 as u128);
        }
        self.0.count_ones() as usize
    }
}

impl View for MaskIter<u32> {
    type V = u32;

    closed spec fn view(&self) -> u32 {
        self.0
    }
}

impl MaskIter<u32> {
    /// An iterator over the set bits of `val`.
    pub fn from(val: u32) -> (r: Self)
        ensures
            r@ == val,
    {
        MaskIter(val)
    }

    /// The masks that are still to come, in the order in which they come.
    pub open spec fn remaining(&self) -> Seq<u128> {
        bit_masks(self@ as u128)
    }

    /// The next mask, without consuming it.
    pub fn peek(&self) -> (r: Option<u32>)
        ensures
            r == (if self@ == 0 { None } else { Some(lowest32(self@)) }),
            self@ == 0 ==> r.is_none(),
            self@ != 0 ==> r.is_some() && r.unwrap() as u128 == lowest(self@ as u128),
    {
        if self.0 != 0 {
            proof {
                lemma_u32_low_index(self.0);
            }
            Some(self.0 ^ (self.0 & (self.0 - 1)))
        } else {
            None
        }
    }

    /// The next mask, and the bit is consumed.
    pub fn next(&mut self) -> (r: Option<u32>)
        ensures
            r == (if old(self)@ == 0 { None } else { Some(lowest32(old(self)@)) }),
            final(self)@ == without_lowest32(old(self)@),
            old(self)@ == 0 ==> r.is_none() && final(self)@ == 0,
            old(self)@ != 0 ==> r.is_some() && r.unwrap() as u128 == old(self).remaining()[0],
            final(self)@ as u128 == drop_lowest(old(self)@ as u128),
            old(self)@ != 0 ==> final(self).remaining() == old(self).remaining().drop_first(),
    {
        if self.0 != 0 {
            proof {
                lemma_u32_low_index(self.0);
                assert(bit_masks(self.0 as u128).drop_first() =~= bit_masks(drop_lowest(self.0 as u128)));
            }
            let rest = self.0 & (self.0 - 1);
            let result = self.0 ^ rest;
            self.0 = rest;
            Some(result)
        } else {
            None
        }
    }

    /// How many masks are still to come.
    pub fn len(&self) -> (r: usize)
        ensures
            r == self.remaining().len(),
            r == popcount(self@ as u128),
    {
        proof {
            lemma_bit_masks(self.0 as u128);
            lemma_popcount_bound(self.0 as u128);
        }
        self.0.count_ones() as usize
    }
}

impl View for MaskIter<u64> {
    type V = u64;

    closed spec fn view(&self) -> u64 {
        self.0
    }
}

impl MaskIter<u64> {
    /// An iterator over the set bits of `val`.
    pub fn from(val: u64) -> (r: Self)
        ensures
            r@ == val,
    {
        MaskIter(val)
    }

    /// The masks that are still to come, in the order in which they come.
    pub open spec fn remaining(&self) -> Seq<u128> {
        bit_masks(self@ as u128)
    }

    /// The next mask, without consuming it.
    pub fn peek(&self) -> (r: Option<u64>)
        ensures
            r == (if self@ == 0 { None } else { Some(lowest64(self@)) }),
            self@ == 0 ==> r.is_none(),
            self@ != 0 ==> r.is_some() && r.unwrap() as u128 == lowest(self@ as u128),
    {
        if self.0 != 0 {
            proof {
                lemma_u64_low_index(self.0);
            }
            Some(self.0 ^ (self.0 & (self.0 - 1)))
        } else {
            None
        }
    }

    /// The next mask, and the bit is consumed.
    pub fn next(&mut self) -> (r: Option<u64>)
        ensures
            r == (if old(self)@ == 0 { None } else { Some(lowest64(old(self)@)) }),
            final(self)@ == without_lowest64(old(self)@),
            old(self)@ == 0 ==> r.is_none() && final(self)@ == 0,
            old(self)@ != 0 ==> r.is_some() && r.unwrap() as u128 == old(self).remaining()[0],
            final(self)@ as u128 == drop_lowest(old(self)@ as u128),
            old(self)@ != 0 ==> final(self).remaining() == old(self).remaining().drop_first(),
    {
        if self.0 != 0 {
            proof {
                lemma_u64_low_index(self.0);
                assert(bit_masks(self.0 as u128).drop_first() =~= bit_masks(drop_lowest(self.0 as u128)));
            }
            let rest = self.0 & (self.0 - 1);
            let result = self.0 ^ rest;
            self.0 = rest;
            Some(result)
        } else {
            None
        }
    }

    /// How many masks are still to come.
    pub fn len(&self) -> (r: usize)
        ensures
            r == self.remaining().len(),
            r == popcount(self@ as u128),
    {
        proof {
            lemma_bit_masks(self.0 as u128);
            lemma_popcount_bound(self.0 as u128);
        }
        self.0.count_ones() as usize
    }
}

} // verus!

