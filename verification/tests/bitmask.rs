use sudoku_gen::bit_iter::BitIter as PlainBitIter;
use sudoku_gen::bit_iter::MaskIter as PlainMaskIter;
use sudoku_gen::bitmask::{BitIter, Bitmask, MaskIter, SubsetIter};

fn bit_positions_u16(x: u16) -> Vec<usize> {
    let mut it = Bitmask::<u16>::from(x).as_bit_iter();
    let mut out = Vec::new();
    while let Some(b) = it.next() {
        out.push(b);
    }
    out
}

fn subsets_u16(x: u16) -> Vec<u16> {
    let mut it = Bitmask::<u16>::from(x).as_subset_iter();
    let mut out = Vec::new();
    while let Some(s) = it.next() {
        out.push(s.into_inner());
    }
    out
}

#[test]
fn bit_iter_yields_set_positions_in_ascending_order() {
    assert_eq!(bit_positions_u16(0b10_0110_0001), vec![0, 5, 6, 9]);
    assert_eq!(bit_positions_u16(0), Vec::<usize>::new());
    assert_eq!(bit_positions_u16(0x8000), vec![15]);
    assert_eq!(bit_positions_u16(0xffff), (0..16).collect::<Vec<usize>>());
}

#[test]
fn bit_iter_yields_as_many_positions_as_bits_are_set() {
    for x in [0u16, 1, 2, 3, 0b1010_1010, 0x8001, 0xffff, 12345] {
        let found = bit_positions_u16(x);
        assert_eq!(found.len(), x.count_ones() as usize);
        for w in found.windows(2) {
            assert!(w[0] < w[1]);
        }
        for b in &found {
            assert!(x & (1 << b) != 0);
        }
        assert_eq!(Bitmask::<u16>::from(x).as_bit_iter().len(), x.count_ones() as usize);
    }
}

#[test]
fn bit_iter_on_every_width() {
    let mut a = BitIter::<u8>::from(0b1000_0101);
    assert_eq!((a.next(), a.next(), a.next(), a.next()), (Some(0), Some(2), Some(7), None));
    let mut b = BitIter::<u32>::from(0x8000_0001);
    assert_eq!(b.peek(), Some(0));
    assert_eq!((b.next(), b.next(), b.next()), (Some(0), Some(31), None));
    let mut c = BitIter::<u64>::from(1u64 << 63);
    assert_eq!(c.len(), 1);
    assert_eq!((c.next(), c.next()), (Some(63), None));
    let mut d = BitIter::<u128>::from((1u128 << 100) | (1u128 << 80) | 8);
    assert_eq!(d.len(), 3);
    assert_eq!(d.peek(), Some(3));
    assert_eq!((d.next(), d.next(), d.next(), d.next()), (Some(3), Some(80), Some(100), None));
}

#[test]
fn mask_iter_yields_one_bit_masks_whose_xor_is_the_mask() {
    for x in [0u32, 1, 0b1011_0000, 0x8000_0001, 0xffff_ffff, 987_654_321] {
        let mut it = MaskIter::<u32>::from(x);
        assert_eq!(it.len(), x.count_ones() as usize);
        let mut all = 0u32;
        let mut count = 0;
        let mut last = 0u32;
        while let Some(m) = it.next() {
            assert_eq!(m.count_ones(), 1);
            assert!(m > last || count == 0);
            last = m;
            all ^= m;
            count += 1;
        }
        assert_eq!(all, x);
        assert_eq!(count, x.count_ones());
    }
}

#[test]
fn mask_iter_peek_is_the_lowest_bit() {
    let it = MaskIter::<u16>::from(0b0110_1000);
    assert_eq!(it.peek(), Some(0b1000));
    assert_eq!(MaskIter::<u16>::from(0).peek(), None);
    let mut wide = MaskIter::<u128>::from((1u128 << 90) | (1u128 << 70));
    assert_eq!(wide.peek(), Some(1u128 << 70));
    assert_eq!(wide.next(), Some(1u128 << 70));
    assert_eq!(wide.next(), Some(1u128 << 90));
    assert_eq!(wide.next(), None);
}

#[test]
fn subset_iter_yields_every_subset_from_the_mask_down_to_zero() {
    assert_eq!(subsets_u16(0b101), vec![0b101, 0b100, 0b001, 0b000]);
    assert_eq!(subsets_u16(0), vec![0]);
    assert_eq!(subsets_u16(0b1000), vec![0b1000, 0]);
    assert_eq!(subsets_u16(0b110), vec![0b110, 0b100, 0b010, 0b000]);
}

#[test]
fn subset_iter_yields_two_to_the_popcount_distinct_submasks() {
    for x in [0u16, 1, 0b1011, 0b1_0110_1001, 0x1ff, 0x8421] {
        let found = subsets_u16(x);
        assert_eq!(found.len(), 1usize << x.count_ones());
        assert_eq!(found[0], x);
        assert_eq!(*found.last().unwrap(), 0);
        for w in found.windows(2) {
            assert!(w[0] > w[1]);
        }
        for s in &found {
            assert_eq!(s & x, *s);
        }
    }
}

#[test]
fn subset_iter_on_wide_masks() {
    let mut it = SubsetIter::<u128>::from((1u128 << 100) | 1);
    let mut found = Vec::new();
    while let Some(s) = it.next() {
        found.push(s.into_inner());
    }
    assert_eq!(found, vec![(1u128 << 100) | 1, 1u128 << 100, 1, 0]);
    let mut narrow = SubsetIter::<u8>::from(0b11);
    let mut count = 0;
    while let Some(_) = narrow.next() {
        count += 1;
    }
    assert_eq!(count, 4);
}

#[test]
fn bitmask_set_unset_and_contains() {
    let mut m = Bitmask::<u16>::empty();
    assert!(m.is_empty());
    assert!(!m.is_not_empty());
    m.set(3);
    m.set(9);
    assert!(m.contains(3) && m.contains(9) && !m.contains(4));
    assert_eq!(m.into_inner(), 0b10_0000_1000);
    assert_eq!(m.count_ones(), 2);
    m.unset(3);
    assert_eq!(m.into_inner(), 0b10_0000_0000);
    m.unset(3);
    assert_eq!(m.into_inner(), 0b10_0000_0000);
    assert!(m.is_not_empty());
    assert_eq!(Bitmask::<u16>::singleton(5).into_inner(), 32);
    assert_eq!(Bitmask::<u128>::singleton(100).into_inner(), 1u128 << 100);
}

#[test]
fn bitmask_from_iter_collects_the_positions() {
    let m = Bitmask::<u128>::from_iter(&vec![0, 80, 40, 80]);
    assert_eq!(m.into_inner(), 1 | (1u128 << 40) | (1u128 << 80));
    assert_eq!(Bitmask::<u16>::from_iter(&vec![]).into_inner(), 0);
    assert_eq!(Bitmask::<u8>::from_iter(&vec![7, 0]).into_inner(), 0x81);
}

#[test]
fn bitmask_max_is_the_highest_set_bit() {
    assert_eq!(Bitmask::<u16>::from(0).max(), None);
    assert_eq!(Bitmask::<u16>::from(1).max(), Some(0));
    assert_eq!(Bitmask::<u16>::from(0b0100_0110).max(), Some(6));
    assert_eq!(Bitmask::<u8>::from(0x80).max(), Some(7));
    assert_eq!(Bitmask::<u32>::from(0x8000_0000).max(), Some(31));
    assert_eq!(Bitmask::<u64>::from(1 << 40).max(), Some(40));
    assert_eq!(Bitmask::<u128>::from((1u128 << 80) | 5).max(), Some(80));
    assert_eq!(Bitmask::<u128>::from(0).max(), None);
    assert_eq!(Bitmask::<u128>::from(u128::MAX).max(), Some(127));
}

#[test]
fn bitmask_count_ones_on_every_width() {
    assert_eq!(Bitmask::<u8>::from(0xff).count_ones(), 8);
    assert_eq!(Bitmask::<u16>::from(0b0110_0001).count_ones(), 3);
    assert_eq!(Bitmask::<u32>::from(0).count_ones(), 0);
    assert_eq!(Bitmask::<u64>::from(u64::MAX).count_ones(), 64);
    assert_eq!(Bitmask::<u128>::from((1u128 << 127) | 1).count_ones(), 2);
}

#[test]
fn bitmask_logic_operations() {
    let a = Bitmask::<u16>::from(0b1100);
    let b = Bitmask::<u16>::from(0b1010);
    assert_eq!(a.bitand(b).into_inner(), 0b1000);
    assert_eq!(a.bitor(b).into_inner(), 0b1110);
    assert_eq!(a.bitxor(b).into_inner(), 0b0110);
    assert_eq!(a.not().into_inner(), !0b1100u16);
    let mut c = a;
    c.bitand_assign(b);
    assert_eq!(c.into_inner(), 0b1000);
    c.bitor_assign(Bitmask::<u16>::from(1));
    assert_eq!(c.into_inner(), 0b1001);
    c.bitxor_assign(Bitmask::<u16>::from(0b1111));
    assert_eq!(c.into_inner(), 0b0110);
    assert!(c.same_as(&Bitmask::<u16>::from(6)));
    assert!(!c.same_as(&a));
    assert!(a == Bitmask::<u16>::from(0b1100));
}

#[test]
fn plain_iterators_walk_the_bits() {
    let mut bits = PlainBitIter::<u16>::from(0b1001_0100);
    assert_eq!(bits.len(), 3);
    assert_eq!((bits.next(), bits.next(), bits.next(), bits.next()), (Some(2), Some(4), Some(7), None));
    let mut masks = PlainMaskIter::<u32>::from(0b0101_0000);
    assert_eq!(masks.peek(), Some(0b0001_0000));
    assert_eq!(masks.len(), 2);
    assert_eq!((masks.next(), masks.next(), masks.next()), (Some(0b0001_0000), Some(0b0100_0000), None));
    let mut wide = PlainBitIter::<u64>::from((1u64 << 50) | (1 << 20));
    assert_eq!((wide.next(), wide.next(), wide.next()), (Some(20), Some(50), None));
    let mut small = PlainMaskIter::<u8>::from(0xff);
    let mut xor = 0u8;
    while let Some(m) = small.next() {
        xor ^= m;
    }
    assert_eq!(xor, 0xff);
}
