//! A solver that reasons as a person would: singles, intersections and
//! subsets.

use itertools::Itertools;
use vstd::prelude::*;
use vstd::std_specs::bits::{axiom_u16_trailing_zeros, u16_trailing_zeros};
use crate::bit_iter::{MaskIter, lowest16, without_lowest16};
use crate::bits_std::lemma_u16_low_index;
use crate::bitmask::SubsetIter;
use crate::bits::{lemma_popcount_add, lemma_popcount_one, lemma_popcount_within, lemma_popcount_zero, popcount};
use crate::pipeline::{ALL_DIGITS_MASK, RegionMaskedSudoku, has_digit, lemma_digit_masks};
use crate::sudoku::{
    Sudoku, are_peers, cell_of_region, is_solution, lemma_cell_region, lemma_region_cells,
    lemma_region_peers, lemma_solution_region, peers, place_in_region, region_cell, region_index,
    region_of,
};

verus! {

/// The digit of a mask that holds one digit from 1 to 9; 0 for any other mask.
pub open spec fn single_digit(mask: u16) -> int {
    if mask == 0b10 {
        1
    } else if mask == 0b100 {
        2
    } else if mask == 0b1000 {
        3
    } else if mask == 0b1_0000 {
        4
    } else if mask == 0b10_0000 {
        5
    } else if mask == 0b100_0000 {
        6
    } else if mask == 0b1000_0000 {
        7
    } else if mask == 0b1_0000_0000 {
        8
    } else if mask == 0b10_0000_0000 {
        9
    } else {
        0
    }
}

/// What a mask of one digit is.
pub proof fn lemma_single_digit(m: u16, d: u16)
    ensures
        0u16 & !0b11_1111_1110u16 == 0,
        m & !0b11_1111_1110u16 == 0 && m != 0 && m & ((m - 1) as u16) == 0
            ==> m == 0b10
                || m == 0b100
                || m == 0b1000
                || m == 0b1_0000
                || m == 0b10_0000
                || m == 0b100_0000
                || m == 0b1000_0000
                || m == 0b1_0000_0000
                || m == 0b10_0000_0000,
        1u16 << 1 == 0b10
            && 1u16 << 2 == 0b100
            && 1u16 << 3 == 0b1000
            && 1u16 << 4 == 0b1_0000
            && 1u16 << 5 == 0b10_0000
            && 1u16 << 6 == 0b100_0000
            && 1u16 << 7 == 0b1000_0000
            && 1u16 << 8 == 0b1_0000_0000
            && 1u16 << 9 == 0b10_0000_0000,
        m == 0 ==> (d < 16 ==> m & (1u16 << d) == 0),
        1 <= d <= 9 ==> (1u16 << d) & !0b11_1111_1110u16 == 0 && (1u16 << d) != 0 && (1u16 << d) & (((1u16 << d) - 1) as u16) == 0,
        m & !0b11_1111_1110u16 == 0 && d < 16 && m & (1u16 << d) != 0 ==> 1 <= d <= 9,
        d < 16 ==> (m & !(1u16 << d) == m <==> m & (1u16 << d) == 0),
        d < 16 ==> (m & !(1u16 << d)) & m == m & !(1u16 << d) && m & !(1u16 << d) <= m,
        d < 16 && m & (1u16 << d) != 0 ==> m & !(1u16 << d) < m && (1u16 << d) <= m && (m ^ (1u16 << d)) == m & !( 1u16 << d),
{
    lemma_digit_facts(m, d);
}

/// For each cell the mask of the digits that can still go there.
#[derive(Clone, Copy)]
pub struct Sukaku(pub [u16; 81]);

impl Sukaku {
    /// Every mask holds digits from 1 to 9 only.
    pub open spec fn wf(&self) -> bool {
        forall|i: int| 0 <= i < 81 ==> #[trigger] self.0[i] & !ALL_DIGITS_MASK == 0
    }

    /// The candidates of a grid: its digit where a cell holds one, every
    /// digit where it is empty, none where it holds anything else.
    pub fn from_sudoku(sudoku: &Sudoku) -> (r: Self)
        ensures
            r.wf(),
            forall|i: int|
                0 <= i < 81 ==> #[trigger] r.0[i] == (if sudoku@[i] == 0 {
                    ALL_DIGITS_MASK
                } else if sudoku@[i] <= 9 {
                    1u16 << sudoku@[i]
                } else {
                    0u16
                }),
    {
        let mut masks = [0u16; 81];
        let mut i: usize = 0;
        while i < 81
            invariant
                i <= 81,
                forall|j: int|
                    0 <= j < i ==> #[trigger] masks[j] == (if sudoku@[j] == 0 {
                        ALL_DIGITS_MASK
                    } else if sudoku@[j] <= 9 {
                        1u16 << sudoku@[j]
                    } else {
                        0u16
                    }),
                forall|j: int| 0 <= j < i ==> #[trigger] masks[j] & !ALL_DIGITS_MASK == 0,
            decreases 81 - i,
        {
            let d = sudoku.get(i);
            let m: u16 = if d == 0 {
                ALL_DIGITS_MASK
            } else if d <= 9 {
                1u16 << d
            } else {
                0
            };
            proof {
                lemma_digit_masks(0, 0, 0, 0, 0);
                lemma_single_digit(0, d as u16);
            }
            masks[i] = m;
            i += 1;
        }
        Sukaku(masks)
    }
}

/// The number of cells up to `n` that are marked.
pub open spec fn count_true(marks: Seq<bool>, n: int) -> int
    decreases n,
{
    if n <= 0 {
        0
    } else {
        count_true(marks, n - 1) + (if marks[n - 1] { 1int } else { 0int })
    }
}

/// The sum of the masks up to `n`.
pub open spec fn sum_masks(masks: Seq<u16>, n: int) -> int
    decreases n,
{
    if n <= 0 {
        0
    } else {
        sum_masks(masks, n - 1) + masks[n - 1] as int
    }
}

proof fn lemma_count_true_update(marks: Seq<bool>, n: int, i: int)
    requires
        0 <= i < marks.len(),
        0 <= n <= marks.len(),
        !marks[i],
    ensures
        count_true(marks.update(i, true), n) == count_true(marks, n) + (if i < n { 1int } else { 0int }),
        0 <= count_true(marks, n) <= n - (if i < n { 1int } else { 0int }),
    decreases n,
{
    if n > 0 {
        lemma_count_true_update(marks, n - 1, i);
    }
}

proof fn lemma_count_true_full(marks: Seq<bool>, n: int)
    requires
        0 <= n <= marks.len(),
    ensures
        0 <= count_true(marks, n) <= n,
        count_true(marks, n) == n ==> forall|i: int| 0 <= i < n ==> marks[i],
    decreases n,
{
    if n > 0 {
        lemma_count_true_full(marks, n - 1);
    }
}

proof fn lemma_sum_masks_within(a: Seq<u16>, b: Seq<u16>, n: int)
    requires
        0 <= n <= a.len(),
        a.len() == b.len(),
        forall|i: int| 0 <= i < n ==> #[trigger] a[i] <= b[i],
    ensures
        0 <= sum_masks(a, n) <= sum_masks(b, n),
        sum_masks(a, n) == sum_masks(b, n) ==> forall|i: int| 0 <= i < n ==> a[i] == b[i],
    decreases n,
{
    if n > 0 {
        lemma_sum_masks_within(a, b, n - 1);
        assert(a[n - 1] <= b[n - 1]);
    }
}

/// Solver capable of performing basic logic:
/// - Naked and Hidden Singles
/// - Pointing and Claiming
/// - Naked and Hidden Subsets
#[derive(Clone, Copy)]
pub struct BasicSolver {
    sukaku: Sukaku,
    placed: [bool; 81],
    placed_count: usize,
    missing_from_rows: [u16; 9],
    missing_from_cols: [u16; 9],
    missing_from_boxes: [u16; 9],
}

impl BasicSolver {
    /// The digits that can still go to cell `i`.
    pub closed spec fn cands(&self, i: int) -> u16 {
        self.sukaku.0[i]
    }

    /// Whether cell `i` has its digit.
    pub closed spec fn is_placed(&self, i: int) -> bool {
        self.placed[i]
    }

    /// The number of cells that have their digit.
    pub closed spec fn count(&self) -> int {
        self.placed_count as int
    }

    /// The digits that are not placed in a region.
    pub closed spec fn missing(&self, kind: int, region: int) -> u16 {
        if kind == 0 {
            self.missing_from_rows[region]
        } else if kind == 1 {
            self.missing_from_cols[region]
        } else {
            self.missing_from_boxes[region]
        }
    }

    /// The grid of the digits that are placed.
    pub open spec fn grid(&self) -> Seq<u8> {
        Seq::new(81, |i: int| if self.is_placed(i) { single_digit(self.cands(i)) as u8 } else { 0u8 })
    }

    /// Whether every digit of `s` can still go where `s` has it.
    pub open spec fn admits(&self, s: Seq<u8>) -> bool {
        forall|i: int| 0 <= i < 81 ==> #[trigger] has_digit(self.cands(i), s[i] as int)
    }

    /// The count is the count of the placed cells; a placed cell has one
    /// candidate, a digit from 1 to 9 that none of its peers can take; and
    /// each region lacks the digits that are not placed in it.
    pub open spec fn wf(&self) -> bool {
        &&& self.count() == count_true(Seq::new(81, |i: int| self.is_placed(i)), 81)
        &&& forall|i: int| 0 <= i < 81 ==> #[trigger] self.cands(i) & !ALL_DIGITS_MASK == 0
        &&& forall|i: int| 0 <= i < 81 && #[trigger] self.is_placed(i) ==> 1 <= single_digit(self.cands(i)) <= 9
        &&& forall|i: int, j: int|
            0 <= i < 81 && 0 <= j < 81 && #[trigger] self.is_placed(i) && peers(i, j) ==> !#[trigger] has_digit(
                self.cands(j),
                single_digit(self.cands(i)),
            )
        &&& forall|kind: int, region: int|
            0 <= kind < 3 && 0 <= region < 9 ==> #[trigger] self.missing(kind, region) & !ALL_DIGITS_MASK == 0
        &&& forall|kind: int, region: int, d: int|
            0 <= kind < 3 && 0 <= region < 9 && 1 <= d <= 9 ==> (#[trigger] has_digit(
                self.missing(kind, region),
                d,
            ) <==> forall|i: int|
                0 <= i < 81 && region_of(kind, i) == region && #[trigger] self.is_placed(i) ==> single_digit(
                    self.cands(i),
                ) != d)
    }

    /// Two states that are in order, with the same cells placed and the
    /// same candidates, are one state.
    pub proof fn lemma_same_state(&self, other: &Self)
        requires
            self.wf(),
            other.wf(),
            forall|i: int|
                0 <= i < 81 ==> #[trigger] self.cands(i) == other.cands(i) && self.is_placed(i) == other.is_placed(i),
        ensures
            *self == *other,
    {
        assert(self.sukaku.0 =~= other.sukaku.0) by {
            assert forall|i: int| 0 <= i < 81 implies self.sukaku.0[i] == other.sukaku.0[i] by {
                assert(self.cands(i) == other.cands(i));
            }
        }
        assert(self.placed =~= other.placed) by {
            assert forall|i: int| 0 <= i < 81 implies self.placed[i] == other.placed[i] by {
                assert(self.cands(i) == other.cands(i) && self.is_placed(i) == other.is_placed(i));
            }
        }
        assert(Seq::new(81, |i: int| self.is_placed(i)) =~= Seq::new(81, |i: int| other.is_placed(i))) by {
            assert forall|i: int| 0 <= i < 81 implies self.is_placed(i) == other.is_placed(i) by {
                assert(self.cands(i) == other.cands(i) && self.is_placed(i) == other.is_placed(i));
            }
        }
        assert(self.placed_count == other.placed_count);
        assert forall|kind: int, region: int| 0 <= kind < 3 && 0 <= region < 9 implies #[trigger] self.missing(
            kind,
            region,
        ) == other.missing(kind, region) by {
            let (a, b) = (self.missing(kind, region), other.missing(kind, region));
            if a != b {
                let t = u16_trailing_zeros(a ^ b);
                lemma_differ(a, b, t as u16);
                axiom_u16_trailing_zeros(a ^ b);
                let d = t as int;
                lemma_single_digit(a, t as u16);
                lemma_single_digit(b, t as u16);
                assert(a & !ALL_DIGITS_MASK == 0 && b & !ALL_DIGITS_MASK == 0);
                assert(1 <= d <= 9);
                assert(has_digit(a, d) != has_digit(b, d));
                if has_digit(a, d) {
                    assert forall|i: int|
                        0 <= i < 81 && region_of(kind, i) == region && #[trigger] other.is_placed(i) implies single_digit(
                        other.cands(i),
                    ) != d by {
                        assert(self.cands(i) == other.cands(i) && self.is_placed(i) == other.is_placed(i));
                    }
                } else {
                    assert forall|i: int|
                        0 <= i < 81 && region_of(kind, i) == region && #[trigger] self.is_placed(i) implies single_digit(
                        self.cands(i),
                    ) != d by {
                        assert(self.cands(i) == other.cands(i) && self.is_placed(i) == other.is_placed(i));
                    }
                }
                assert(false);
            }
        }
        assert(self.missing_from_rows =~= other.missing_from_rows) by {
            assert forall|r: int| 0 <= r < 9 implies self.missing_from_rows[r] == other.missing_from_rows[r] by {
                assert(self.missing(0, r) == other.missing(0, r));
            }
        }
        assert(self.missing_from_cols =~= other.missing_from_cols) by {
            assert forall|r: int| 0 <= r < 9 implies self.missing_from_cols[r] == other.missing_from_cols[r] by {
                assert(self.missing(1, r) == other.missing(1, r));
            }
        }
        assert(self.missing_from_boxes =~= other.missing_from_boxes) by {
            assert forall|r: int| 0 <= r < 9 implies self.missing_from_boxes[r] == other.missing_from_boxes[r] by {
                assert(self.missing(2, r) == other.missing(2, r));
            }
        }
        assert(self.sukaku == other.sukaku);
    }

    /// Whether `after` is this state with the digit of `mask` placed at
    /// cell `idx`: the cell holds it, and its peers can no longer take it.
    pub open spec fn placing(&self, idx: int, mask: u16, after: &Self) -> bool {
        &&& after.wf()
        &&& forall|i: int| 0 <= i < 81 ==> #[trigger] after.is_placed(i) == (i == idx || self.is_placed(i))
        &&& forall|i: int|
            0 <= i < 81 ==> #[trigger] after.cands(i) == (if i == idx {
                mask
            } else if peers(idx, i) {
                self.cands(i) & !mask
            } else {
                self.cands(i)
            })
    }

    /// This state with the digit of `mask` placed at cell `idx`: see
    /// [`Self::placing`].
    pub closed spec fn placed_at(&self, idx: int, mask: u16) -> Self {
        choose|after: Self| self.placing(idx, mask, &after)
    }

    /// Whether `after` is this state with the digits of `mask` taken from
    /// cell `idx`.
    pub open spec fn cutting(&self, idx: int, mask: u16, after: &Self) -> bool {
        &&& after.wf()
        &&& forall|i: int| 0 <= i < 81 ==> #[trigger] after.is_placed(i) == self.is_placed(i)
        &&& forall|i: int|
            0 <= i < 81 ==> #[trigger] after.cands(i) == (if i == idx {
                self.cands(i) & !mask
            } else {
                self.cands(i)
            })
    }

    /// This state with the digits of `mask` taken from cell `idx`: see
    /// [`Self::cutting`].
    pub closed spec fn without(&self, idx: int, mask: u16) -> Self {
        choose|after: Self| self.cutting(idx, mask, &after)
    }

    /// The state that a step makes is the one that the step is said to
    /// make.
    proof fn lemma_made(&self, idx: int, mask: u16, after: &Self)
        ensures
            self.placing(idx, mask, after) ==> *after == self.placed_at(idx, mask),
            self.cutting(idx, mask, after) ==> *after == self.without(idx, mask),
    {
        if self.placing(idx, mask, after) {
            let t = self.placed_at(idx, mask);
            assert(self.placing(idx, mask, &t));
            assert forall|i: int| 0 <= i < 81 implies #[trigger] after.cands(i) == t.cands(i) && after.is_placed(i)
                == t.is_placed(i) by {}
            after.lemma_same_state(&t);
        }
        if self.cutting(idx, mask, after) {
            let t = self.without(idx, mask);
            assert(self.cutting(idx, mask, &t));
            assert forall|i: int| 0 <= i < 81 implies #[trigger] after.cands(i) == t.cands(i) && after.is_placed(i)
                == t.is_placed(i) by {}
            after.lemma_same_state(&t);
        }
    }

    /// What the pass for naked singles makes of this state from cell
    /// `idx` on, and what it returns, `p` saying whether a digit was placed
    /// before: each cell that is not placed and has a single candidate is
    /// placed, one after the other; a cell without a candidate ends the
    /// pass.
    pub open spec fn naked_from(&self, idx: int, p: bool) -> (Self, Option<bool>)
        decreases 81 - idx,
    {
        if idx < 0 || idx >= 81 {
            (*self, Some(p))
        } else if self.is_placed(idx) || popcount(self.cands(idx) as u128) >= 2 {
            self.naked_from(idx + 1, p)
        } else if popcount(self.cands(idx) as u128) == 0 {
            (*self, None)
        } else {
            self.placed_at(idx, self.cands(idx)).naked_from(idx + 1, true)
        }
    }

    /// The masks of the digits that one and that several of the cells of
    /// a region from place `k` on that are not placed can take, where `a`
    /// and `m` are those masks for the cells before.
    pub open spec fn scan_from(&self, kind: int, region: int, k: int, a: u16, m: u16) -> (u16, u16)
        decreases 9 - k,
    {
        if k < 0 || k >= 9 {
            (a, m)
        } else if self.is_placed(cell_of_region(kind, region, k)) {
            self.scan_from(kind, region, k + 1, a, m)
        } else {
            self.scan_from(
                kind,
                region,
                k + 1,
                a | self.cands(cell_of_region(kind, region, k)),
                m | (a & self.cands(cell_of_region(kind, region, k))),
            )
        }
    }

    /// What the pass for hidden singles makes of this state from place
    /// `k` of a region on, and what it returns: `once` holds the digits that
    /// a single cell of the region could take when the region was looked at,
    /// and `p` says whether a digit was placed before. A cell that can take
    /// one of those digits is placed; a cell that can take two of them ends
    /// the pass.
    pub open spec fn hidden_cells(&self, kind: int, region: int, once: u16, k: int, p: bool) -> (Self, Option<bool>)
        decreases 3 - kind, 10 - region, 10 - k,
    {
        if !(0 <= kind < 3 && 0 <= region < 9 && 0 <= k <= 9) {
            (*self, Some(p))
        } else if k == 9 {
            self.hidden_regions(kind, region + 1, p)
        } else {
            let c = cell_of_region(kind, region, k);
            let hit = self.cands(c) & once;
            if popcount(hit as u128) == 1 {
                self.placed_at(c, hit).hidden_cells(kind, region, once, k + 1, true)
            } else if popcount(hit as u128) != 0 {
                (*self, None)
            } else {
                self.hidden_cells(kind, region, once, k + 1, p)
            }
        }
    }

    /// What the pass for hidden singles makes of this state from a region
    /// on, and what it returns: a region whose cells cannot take the digits
    /// that it lacks ends the pass.
    pub open spec fn hidden_regions(&self, kind: int, region: int, p: bool) -> (Self, Option<bool>)
        decreases 3 - kind, 10 - region, 11int,
    {
        if !(0 <= kind < 3 && 0 <= region <= 9) {
            (*self, Some(p))
        } else if region == 9 {
            self.hidden_kinds(kind + 1, p)
        } else {
            let (a, m) = self.scan_from(kind, region, 0, 0, 0);
            if a != self.missing(kind, region) {
                (*self, None)
            } else if a & !m != 0 {
                self.hidden_cells(kind, region, a & !m, 0, p)
            } else {
                self.hidden_regions(kind, region + 1, p)
            }
        }
    }

    /// What the pass for hidden singles makes of this state from a kind of
    /// region on (rows, then columns, then boxes), and what it returns.
    pub open spec fn hidden_kinds(&self, kind: int, p: bool) -> (Self, Option<bool>)
        decreases 4 - kind, 0int, 0int,
    {
        if !(0 <= kind < 3) {
            (*self, Some(p))
        } else {
            self.hidden_regions(kind, 0, p)
        }
    }

    /// The region of kind `right` to which digit `d` is confined within a
    /// region of kind `left`, if there is one: see [`Self::confined`].
    pub open spec fn target_of(&self, left: int, left_idx: int, right: int, d: int) -> Option<int> {
        if exists|t: int| 0 <= t < 9 && #[trigger] self.confined(left, left_idx, right, d, t) {
            Some(choose|t: int| 0 <= t < 9 && #[trigger] self.confined(left, left_idx, right, d, t))
        } else {
            None
        }
    }

    /// What is left of this state once the digit of `mask` is taken from
    /// the cells of the region `target` of kind `right`, from place `k` on,
    /// that lie outside the given region of kind `left`; and whether a cell
    /// has lost the digit, there or, as `p` says, before.
    pub open spec fn outside_from(
        &self,
        left: int,
        left_idx: int,
        right: int,
        target: int,
        mask: u16,
        k: int,
        p: bool,
    ) -> (Self, bool)
        decreases 9 - k,
    {
        if k < 0 || k >= 9 {
            (*self, p)
        } else if region_of(left, cell_of_region(right, target, k)) != left_idx {
            self.without(cell_of_region(right, target, k), mask).outside_from(
                left,
                left_idx,
                right,
                target,
                mask,
                k + 1,
                p || self.cands(cell_of_region(right, target, k)) & mask != 0,
            )
        } else {
            self.outside_from(left, left_idx, right, target, mask, k + 1, p)
        }
    }

    /// What the pointing and claiming steps of the regions of kind `left`
    /// against those of kind `right` make of this state, from the digits
    /// `unread` of region `left_idx` on, the lowest digit first; and whether
    /// a candidate was taken away, there or, as `p` says, before.
    pub open spec fn point_digits(&self, left: int, right: int, left_idx: int, unread: u16, p: bool) -> (Self, bool)
        decreases 10 - left_idx, 0int, unread,
        via Self::point_digits_decreases
    {
        if !(0 <= left_idx < 9) {
            (*self, p)
        } else if unread == 0 || unread & !ALL_DIGITS_MASK != 0 {
            self.point_regions(left, right, left_idx + 1, p)
        } else {
            let mask = lowest16(unread);
            match self.target_of(left, left_idx, right, single_digit(mask)) {
                Some(target) => {
                    let (then, changed) = self.outside_from(left, left_idx, right, target, mask, 0, false);
                    then.point_digits(left, right, left_idx, without_lowest16(unread), p || changed)
                },
                None => self.point_digits(left, right, left_idx, without_lowest16(unread), p),
            }
        }
    }

    #[via_fn]
    proof fn point_digits_decreases(&self, left: int, right: int, left_idx: int, unread: u16, p: bool) {
        if 0 <= left_idx < 9 && unread != 0 && unread & !ALL_DIGITS_MASK == 0 {
            lemma_lowest_digit(unread);
        }
    }

    /// What the pointing and claiming steps of the regions of kind `left`
    /// against those of kind `right` make of this state, from region
    /// `left_idx` on: for each digit that the region lacks, lowest first.
    pub open spec fn point_regions(&self, left: int, right: int, left_idx: int, p: bool) -> (Self, bool)
        decreases 10 - left_idx, 1int, 0u16,
    {
        if !(0 <= left_idx < 9) {
            (*self, p)
        } else {
            self.point_digits(left, right, left_idx, self.missing(left, left_idx), p)
        }
    }

    /// What all pointing and claiming steps make of this state: rows and
    /// columns against boxes, then boxes against rows and columns; and
    /// whether a candidate was taken away.
    pub open spec fn point_all(&self) -> (Self, bool) {
        let (one, first) = self.point_regions(0, 2, 0, false);
        let (two, second) = one.point_regions(1, 2, 0, false);
        let (three, third) = two.point_regions(2, 0, 0, false);
        let (four, fourth) = three.point_regions(2, 1, 0, false);
        (four, first || second || third || fourth)
    }

    /// A digit is confined to one region at most.
    proof fn lemma_target(&self, left: int, left_idx: int, right: int, d: int, t: int)
        requires
            0 <= t < 9,
            self.confined(left, left_idx, right, d, t),
        ensures
            self.target_of(left, left_idx, right, d) == Some(t),
    {
        let u = choose|u: int| 0 <= u < 9 && #[trigger] self.confined(left, left_idx, right, d, u);
        assert(self.confined(left, left_idx, right, d, u));
        let l = choose|l: int|
            0 <= l < 9 && has_digit(self.cands(cell_of_region(left, left_idx, l)), d) && #[trigger] region_of(
                right,
                cell_of_region(left, left_idx, l),
            ) == t;
        assert(region_of(right, cell_of_region(left, left_idx, l)) == u);
    }

    /// What is left of this state once the digits of `union` are taken
    /// from the cells of a region at the places of `unsolved`, from place
    /// `k` on, that can take another digit too; and whether a candidate was
    /// taken away, there or, as `p` says, before.
    pub open spec fn subset_from(&self, kind: int, region: int, unsolved: u16, union: u16, k: int, p: bool) -> (
        Self,
        bool,
    )
        decreases 9 - k,
    {
        if k < 0 || k >= 9 {
            (*self, p)
        } else if unsolved & (1u16 << (k as u16)) != 0 && self.cands(cell_of_region(kind, region, k)) & !union != 0 {
            self.without(cell_of_region(kind, region, k), union).subset_from(
                kind,
                region,
                unsolved,
                union,
                k + 1,
                p || self.cands(cell_of_region(kind, region, k)) & union != 0,
            )
        } else {
            self.subset_from(kind, region, unsolved, union, k + 1, p)
        }
    }

    /// What the naked subsets of a region make of this state, from the
    /// subset `cur` of the places `unsolved` on, in the order of the subset
    /// iterator (-1 once the empty subset is done): a subset of `sz` places,
    /// or of all but `sz` of the `n` places, whose cells can take as many
    /// digits as they are has those digits taken from the other cells.
    pub open spec fn region_subsets(
        &self,
        kind: int,
        region: int,
        unsolved: u16,
        n: int,
        sz: int,
        cur: int,
        p: bool,
    ) -> (Self, bool)
        decreases cur + 1,
        via Self::region_subsets_decreases
    {
        if cur < 0 || cur > 0xffff {
            (*self, p)
        } else {
            let subset = cur as u16;
            let later = if subset == 0 {
                -1
            } else {
                (((subset - 1) as u16) & unsolved) as int
            };
            let count = Self::count_in(subset, 9);
            let union = self.union_at(kind, region, subset, 9);
            if (count == sz || count == n - sz) && popcount(union as u128) == count {
                let (then, changed) = self.subset_from(kind, region, unsolved, union, 0, false);
                then.region_subsets(kind, region, unsolved, n, sz, later, p || changed)
            } else {
                self.region_subsets(kind, region, unsolved, n, sz, later, p)
            }
        }
    }

    #[via_fn]
    proof fn region_subsets_decreases(
        &self,
        kind: int,
        region: int,
        unsolved: u16,
        n: int,
        sz: int,
        cur: int,
        p: bool,
    ) {
        if 0 < cur <= 0xffff {
            lemma_within_facts(0, cur as u16, unsolved, 0);
        }
    }

    /// What the naked subsets of `sz` cells, and of all but `sz`, make of
    /// this state from a region on, kind by kind: a region that lacks fewer
    /// than `2 * sz` digits, or has fewer cells that are not placed, is
    /// passed over.
    pub open spec fn subsets_at(&self, sz: int, kind: int, region: int, p: bool) -> (Self, bool)
        decreases 3 - kind, 9 - region,
    {
        if !(0 <= kind < 3 && 0 <= region <= 9) {
            (*self, p)
        } else if region == 9 {
            self.subsets_at(sz, kind + 1, 0, p)
        } else if popcount(self.missing(kind, region) as u128) >= 2 * sz && self.open_count(kind, region, 9) >= 2 * sz {
            let (then, changed) = self.region_subsets(
                kind,
                region,
                self.open_places(kind, region, 9),
                self.open_count(kind, region, 9),
                sz,
                self.open_places(kind, region, 9) as int,
                false,
            );
            then.subsets_at(sz, kind, region + 1, p || changed)
        } else {
            self.subsets_at(sz, kind, region + 1, p)
        }
    }

    /// What the naked subsets make of this state: those of two cells,
    /// then of three, then of four; and whether a candidate was taken away.
    pub open spec fn subsets_all(&self) -> (Self, bool) {
        let (one, pairs) = self.subsets_at(2, 0, 0, false);
        let (two, triples) = one.subsets_at(3, 0, 0, false);
        let (three, quads) = two.subsets_at(4, 0, 0, false);
        (three, pairs || triples || quads)
    }

    /// Whether the same cells are placed as in `before`, and each region
    /// lacks the same digits.
    pub open spec fn same_placed(&self, before: &Self) -> bool {
        &&& self.count() == before.count()
        &&& forall|i: int| 0 <= i < 81 ==> #[trigger] self.is_placed(i) == before.is_placed(i)
        &&& forall|kind: int, region: int| #[trigger] self.missing(kind, region) == before.missing(kind, region)
    }

    /// No cell of `self` has a candidate that it has not in `before`, and no
    /// cell that is placed in `before` is not placed in `self`.
    pub open spec fn shrunk_from(&self, before: &Self) -> bool {
        &&& forall|i: int, d: int|
            0 <= i < 81 && #[trigger] has_digit(self.cands(i), d) ==> has_digit(before.cands(i), d)
        &&& forall|i: int| 0 <= i < 81 && #[trigger] before.is_placed(i) ==> self.is_placed(i)
        &&& forall|i: int| 0 <= i < 81 ==> #[trigger] self.cands(i) <= before.cands(i)
    }

    /// Shrinking goes through a state in between.
    proof fn lemma_shrunk_chain(&self, mid: &Self, before: &Self)
        requires
            self.shrunk_from(mid),
            mid.shrunk_from(before),
        ensures
            self.shrunk_from(before),
    {
        assert forall|i: int, d: int| 0 <= i < 81 && #[trigger] has_digit(self.cands(i), d) implies has_digit(
            before.cands(i),
            d,
        ) by {
            assert(has_digit(mid.cands(i), d));
        }
        assert forall|i: int| 0 <= i < 81 && #[trigger] before.is_placed(i) implies self.is_placed(i) by {
            assert(mid.is_placed(i));
        }
        assert forall|i: int| 0 <= i < 81 implies #[trigger] self.cands(i) <= before.cands(i) by {
            assert(self.cands(i) <= mid.cands(i));
            assert(mid.cands(i) <= before.cands(i));
        }
    }

    /// The measure by which solving ends: it falls with each digit that is
    /// placed or ruled out.
    pub open spec fn weight(&self) -> int {
        sum_masks(Seq::new(81, |i: int| self.cands(i)), 81) + 81 - self.count()
    }

    /// Initialise a solver with the clues from the given Sudoku
    pub fn for_sudoku(sudoku: &Sudoku) -> (r: Self)
        ensures
            r == Self::starting(sudoku@),
            r.wf(),
            r.count() == 0,
            forall|i: int| 0 <= i < 81 ==> !r.is_placed(i),
            forall|i: int|
                0 <= i < 81 ==> #[trigger] r.cands(i) == (if sudoku@[i] == 0 {
                    ALL_DIGITS_MASK
                } else if sudoku@[i] <= 9 {
                    1u16 << sudoku@[i]
                } else {
                    0u16
                }),
    {
        let sukaku = Sukaku::from_sudoku(sudoku);
        let r = Self::for_sukaku(sukaku);
        proof {
            r.lemma_start(sudoku@, &r, Seq::empty());
        }
        r
    }

    /// Initialise a solver with the clues from the given Sukaku
    pub fn for_sukaku(sukaku: Sukaku) -> (r: Self)
        requires
            sukaku.wf(),
        ensures
            r.wf(),
            r.count() == 0,
            forall|i: int| 0 <= i < 81 ==> !r.is_placed(i),
            forall|i: int| 0 <= i < 81 ==> r.cands(i) == sukaku.0[i],
    {
        let r = Self {
            sukaku,
            placed: [false; 81],
            placed_count: 0,
            missing_from_rows: [ALL_DIGITS_MASK; 9],
            missing_from_cols: [ALL_DIGITS_MASK; 9],
            missing_from_boxes: [ALL_DIGITS_MASK; 9],
        };
        proof {
            let marks = Seq::new(81, |i: int| r.is_placed(i));
            lemma_count_none(marks, 81);
            lemma_digit_masks(0, 0, 0, 0, 0);
            assert forall|kind: int, region: int, d: int|
                0 <= kind < 3 && 0 <= region < 9 && 1 <= d <= 9 implies #[trigger] has_digit(
                r.missing(kind, region),
                d,
            ) by {
                lemma_digit_masks(0, 0, 0, d as u16, 0);
            }
        }
        r
    }

    /// Check if the puzzle is solved
    pub fn is_solved(&self) -> (r: bool)
        ensures
            r == (self.count() == 81),
            self.wf() && r ==> is_solution(self.grid()) && self.admits(self.grid()),
    {
        proof {
            if self.wf() && self.placed_count == 81 {
                self.lemma_solved();
            }
        }
        self.placed_count == 81
    }

    /// The mask of the digits that can still go to cell `idx`.
    pub fn candidates(&self, idx: usize) -> (r: u16)
        requires
            idx < 81,
        ensures
            r == self.cands(idx as int),
    {
        self.sukaku.0[idx]
    }

    /// Whether cell `idx` has its digit.
    pub fn is_cell_placed(&self, idx: usize) -> (r: bool)
        requires
            idx < 81,
        ensures
            r == self.is_placed(idx as int),
    {
        self.placed[idx]
    }

    /// Count the number of solved cells
    pub fn solved_cells(&self) -> (r: usize)
        ensures
            r == self.count(),
    {
        self.placed_count
    }

    /// Count the number of cells that are not solved.
    pub fn empty_cells(&self) -> (r: usize)
        requires
            self.wf(),
        ensures
            r == 81 - self.count(),
    {
        proof {
            lemma_count_true_full(Seq::new(81, |i: int| self.is_placed(i)), 81);
        }
        81 - self.placed_count
    }

    /// Once every cell is placed, the placed digits are a solution.
    pub proof fn lemma_solved(&self)
        requires
            self.wf(),
            self.count() == 81,
        ensures
            is_solution(self.grid()),
            self.admits(self.grid()),
    {
        let g = self.grid();
        lemma_count_true_full(Seq::new(81, |i: int| self.is_placed(i)), 81);
        assert forall|i: int| 0 <= i < 81 implies #[trigger] self.is_placed(i) by {
            assert(Seq::new(81, |i: int| self.is_placed(i))[i]);
        }
        assert forall|i: int| 0 <= i < 81 implies 1 <= #[trigger] g[i] <= 9 && has_digit(
            self.cands(i),
            g[i] as int,
        ) by {
            assert(self.is_placed(i));
            lemma_single_digit(self.cands(i), g[i] as u16);
            lemma_digit_masks(self.cands(i), 0, 0, g[i] as u16, g[i] as u16);
        }
        assert forall|i: int, j: int|
            0 <= i < 81 && 0 <= j < 81 && peers(i, j) && #[trigger] g[i] != 0 implies g[i] != #[trigger] g[j] by {
            assert(self.is_placed(i) && self.is_placed(j));
            assert(!has_digit(self.cands(j), single_digit(self.cands(i))));
            assert(has_digit(self.cands(j), g[j] as int));
        }
        assert forall|i: int| 0 <= i < 81 implies #[trigger] has_digit(self.cands(i), g[i] as int) by {
            assert(1 <= g[i] <= 9);
        }
    }

    /// The digits that are not placed in a region.
    fn get_missing(&self, kind: usize, region: usize) -> (r: u16)
        requires
            kind < 3,
            region < 9,
        ensures
            r == self.missing(kind as int, region as int),
    {
        if kind == 0 {
            self.missing_from_rows[region]
        } else if kind == 1 {
            self.missing_from_cols[region]
        } else {
            self.missing_from_boxes[region]
        }
    }

    /// Place the given digit (represented by a bitmask with a single set bit)
    /// in the location indexed by the given index.
    fn place(&mut self, idx: usize, mask: u16)
        requires
            old(self).wf(),
            idx < 81,
            !old(self).is_placed(idx as int),
            1 <= single_digit(mask) <= 9,
            has_digit(old(self).cands(idx as int), single_digit(mask)),
        ensures
            *final(self) == old(self).placed_at(idx as int, mask),
            final(self).wf(),
            final(self).count() == old(self).count() + 1,
            forall|i: int| 0 <= i < 81 ==> final(self).is_placed(i) == (i == idx || old(self).is_placed(i)),
            forall|i: int|
                0 <= i < 81 ==> #[trigger] final(self).cands(i) == (if i == idx {
                    mask
                } else if peers(idx as int, i) {
                    old(self).cands(i) & !mask
                } else {
                    old(self).cands(i)
                }),
            final(self).shrunk_from(old(self)),
            final(self).weight() < old(self).weight(),
            forall|s: Seq<u8>|
                is_solution(s) ==> (#[trigger] final(self).admits(s) <==> old(self).admits(s) && s[idx as int]
                    == single_digit(mask)),
    {
        let ghost d = single_digit(mask);
        proof {
            lemma_single_digit(mask, d as u16);
        }
        self.sukaku.0[idx] = mask;
        let mut jdx: usize = 0;
        while jdx < 81
            invariant
                jdx <= 81,
                idx < 81,
                self.placed == old(self).placed,
                self.placed_count == old(self).placed_count,
                self.missing_from_rows == old(self).missing_from_rows,
                self.missing_from_cols == old(self).missing_from_cols,
                self.missing_from_boxes == old(self).missing_from_boxes,
                forall|i: int|
                    0 <= i < 81 ==> #[trigger] self.sukaku.0[i] == (if i == idx {
                        mask
                    } else if peers(idx as int, i) && i < jdx {
                        old(self).sukaku.0[i] & !mask
                    } else {
                        old(self).sukaku.0[i]
                    }),
            decreases 81 - jdx,
        {
            if are_peers(idx, jdx) {
                self.sukaku.0[jdx] = self.sukaku.0[jdx] & !mask;
            }
            jdx += 1;
        }
        self.placed[idx] = true;
        proof {
            lemma_count_true_update(Seq::new(81, |i: int| old(self).is_placed(i)), 81, idx as int);
        }
        self.placed_count += 1;
        let (r, c, b) = (region_index(0, idx), region_index(1, idx), region_index(2, idx));
        self.missing_from_rows[r] = self.missing_from_rows[r] ^ mask;
        self.missing_from_cols[c] = self.missing_from_cols[c] ^ mask;
        self.missing_from_boxes[b] = self.missing_from_boxes[b] ^ mask;
        proof {
            lemma_count_true_update(Seq::new(81, |i: int| old(self).is_placed(i)), 81, idx as int);
            assert(Seq::new(81, |i: int| self.is_placed(i)) =~= Seq::new(81, |i: int| old(self).is_placed(i)).update(
                idx as int,
                true,
            ));
            old(self).lemma_placed(self, idx as int, mask);
            old(self).lemma_made(idx as int, mask, self);
        }
    }

    /// See [`Self::place`].
    proof fn lemma_placed(&self, after: &Self, idx: int, mask: u16)
        requires
            self.wf(),
            0 <= idx < 81,
            !self.is_placed(idx),
            1 <= single_digit(mask) <= 9,
            has_digit(self.cands(idx), single_digit(mask)),
            after.count() == self.count() + 1,
            after.count() == count_true(Seq::new(81, |i: int| after.is_placed(i)), 81),
            forall|i: int| 0 <= i < 81 ==> after.is_placed(i) == (i == idx || self.is_placed(i)),
            forall|i: int|
                0 <= i < 81 ==> #[trigger] after.cands(i) == (if i == idx {
                    mask
                } else if peers(idx, i) {
                    self.cands(i) & !mask
                } else {
                    self.cands(i)
                }),
            forall|kind: int, region: int|
                0 <= kind < 3 && 0 <= region < 9 ==> #[trigger] after.missing(kind, region) == (if region
                    == region_of(kind, idx) {
                    self.missing(kind, region) ^ mask
                } else {
                    self.missing(kind, region)
                }),
        ensures
            after.wf(),
            after.shrunk_from(self),
            after.weight() < self.weight(),
            forall|s: Seq<u8>|
                is_solution(s) ==> (#[trigger] after.admits(s) <==> self.admits(s) && s[idx] == single_digit(mask)),
    {
        let d = single_digit(mask);
        lemma_single_digit(mask, d as u16);
        lemma_single_digit(self.cands(idx), d as u16);
        assert(mask == 1u16 << (d as u16));
        // every other placed digit differs from the new one where the cells are peers
        assert forall|i: int| 0 <= i < 81 && self.is_placed(i) && peers(i, idx) implies single_digit(self.cands(i))
            != d && after.cands(i) == self.cands(i) by {
            let e = single_digit(self.cands(i));
            assert(!has_digit(self.cands(idx), e));
            lemma_single_digit(self.cands(i), e as u16);
            assert(self.cands(i) == 1u16 << (e as u16));
            lemma_digit_masks(0, 0, 0, e as u16, d as u16);
            lemma_single_digit(self.cands(i), d as u16);
            assert(peers(idx, i));
        }
        assert forall|i: int| 0 <= i < 81 implies #[trigger] after.cands(i) <= self.cands(i) && after.cands(i)
            & !ALL_DIGITS_MASK == 0 by {
            lemma_single_digit(self.cands(i), d as u16);
            lemma_digit_masks(self.cands(i), 0, 0, d as u16, 0);
        }
        assert forall|i: int, e: int| 0 <= i < 81 && #[trigger] has_digit(after.cands(i), e) implies has_digit(
            self.cands(i),
            e,
        ) by {
            lemma_digit_masks(self.cands(i), 0, 0, d as u16, e as u16);
            if i == idx {
                lemma_digit_masks(0, 0, 0, d as u16, e as u16);
            }
        }
        assert forall|i: int| 0 <= i < 81 && #[trigger] after.is_placed(i) implies 1 <= single_digit(after.cands(i))
            <= 9 by {
            if i != idx {
                assert(self.is_placed(i));
            }
        }
        assert forall|i: int, j: int|
            0 <= i < 81 && 0 <= j < 81 && #[trigger] after.is_placed(i) && peers(i, j) implies !#[trigger] has_digit(
            after.cands(j),
            single_digit(after.cands(i)),
        ) by {
            let e = single_digit(after.cands(i));
            if i == idx {
                lemma_digit_masks(self.cands(j), 0, 0, d as u16, d as u16);
            } else {
                assert(self.is_placed(i));
                if peers(i, idx) {
                    assert(single_digit(self.cands(i)) != d);
                }
                assert(e == single_digit(self.cands(i)));
                assert(!has_digit(self.cands(j), e));
                lemma_digit_masks(self.cands(j), 0, 0, d as u16, e as u16);
                if j == idx {
                    lemma_digit_masks(0, 0, 0, d as u16, e as u16);
                }
            }
        }
        assert forall|kind: int, region: int| 0 <= kind < 3 && 0 <= region < 9 implies #[trigger] after.missing(
            kind,
            region,
        ) & !ALL_DIGITS_MASK == 0 by {
            lemma_xor_digit(self.missing(kind, region), d as u16, 0);
        }
        assert forall|kind: int, region: int, e: int|
            0 <= kind < 3 && 0 <= region < 9 && 1 <= e <= 9 implies (#[trigger] has_digit(after.missing(kind, region), e)
            <==> forall|i: int|
            0 <= i < 81 && region_of(kind, i) == region && #[trigger] after.is_placed(i) ==> single_digit(
                after.cands(i),
            ) != e) by {
            let m = self.missing(kind, region);
            lemma_xor_digit(m, d as u16, e as u16);
            assert(has_digit(m, e) <==> forall|i: int|
                0 <= i < 81 && region_of(kind, i) == region && #[trigger] self.is_placed(i) ==> single_digit(
                    self.cands(i),
                ) != e);
            assert forall|i: int| 0 <= i < 81 && self.is_placed(i) implies single_digit(after.cands(i))
                == single_digit(self.cands(i)) by {
                if peers(i, idx) {
                } else {
                }
            }
            if region == region_of(kind, idx) {
                if e == d {
                    assert(after.is_placed(idx));
                } else {
                    if has_digit(m, e) {
                        assert forall|i: int|
                            0 <= i < 81 && region_of(kind, i) == region && #[trigger] after.is_placed(i) implies single_digit(
                            after.cands(i),
                        ) != e by {
                            if i != idx {
                                assert(self.is_placed(i));
                            }
                        }
                    } else {
                        let i = choose|i: int|
                            0 <= i < 81 && region_of(kind, i) == region && #[trigger] self.is_placed(i) && single_digit(
                                self.cands(i),
                            ) == e;
                        assert(after.is_placed(i));
                    }
                }
            } else {
                if has_digit(m, e) {
                    assert forall|i: int|
                        0 <= i < 81 && region_of(kind, i) == region && #[trigger] after.is_placed(i) implies single_digit(
                        after.cands(i),
                    ) != e by {
                        assert(i != idx);
                        assert(self.is_placed(i));
                    }
                } else {
                    let i = choose|i: int|
                        0 <= i < 81 && region_of(kind, i) == region && #[trigger] self.is_placed(i) && single_digit(
                            self.cands(i),
                        ) == e;
                    assert(after.is_placed(i));
                }
            }
        }
        // the digit was missing from the three regions of the cell
        assert forall|kind: int| 0 <= kind < 3 implies has_digit(#[trigger] self.missing(kind, region_of(kind, idx)), d) by {
            lemma_cell_region(kind, idx);
            assert forall|i: int|
                0 <= i < 81 && region_of(kind, i) == region_of(kind, idx) && #[trigger] self.is_placed(i) implies single_digit(
                self.cands(i),
            ) != d by {
                lemma_region_peers(kind, i, idx);
            }
        }
        lemma_sum_masks_within(
            Seq::new(81, |i: int| after.cands(i)),
            Seq::new(81, |i: int| self.cands(i)),
            81,
        );
        assert forall|s: Seq<u8>| is_solution(s) implies (#[trigger] after.admits(s) <==> self.admits(s) && s[idx]
            == d) by {
            if after.admits(s) {
                assert(has_digit(after.cands(idx), s[idx] as int));
                lemma_digit_masks(0, 0, 0, d as u16, s[idx] as u16);
                assert forall|i: int| 0 <= i < 81 implies #[trigger] has_digit(self.cands(i), s[i] as int) by {
                    assert(has_digit(after.cands(i), s[i] as int));
                    lemma_digit_masks(self.cands(i), 0, 0, d as u16, s[i] as u16);
                }
            }
            if self.admits(s) && s[idx] == d {
                assert forall|i: int| 0 <= i < 81 implies #[trigger] has_digit(after.cands(i), s[i] as int) by {
                    assert(has_digit(self.cands(i), s[i] as int));
                    lemma_digit_masks(self.cands(i), 0, 0, d as u16, s[i] as u16);
                    if i != idx && peers(idx, i) {
                        assert(s[idx] != 0);
                        assert(s[idx] != s[i]);
                    }
                }
            }
        }
    }

    /// Eliminate the given digits (represented by a bitmask) from the location
    /// indexed by the given index.
    fn eliminate(&mut self, idx: usize, mask: u16) -> (r: bool)
        requires
            idx < 81,
            old(self).wf(),
            old(self).is_placed(idx as int) ==> !has_digit(mask, single_digit(old(self).cands(idx as int))),
        ensures
            *final(self) == old(self).without(idx as int, mask),
            final(self).wf(),
            r == (old(self).cands(idx as int) & mask != 0),
            !r ==> *final(self) == *old(self),
            r ==> final(self).weight() < old(self).weight(),
            final(self).count() == old(self).count(),
            forall|i: int| 0 <= i < 81 ==> final(self).is_placed(i) == old(self).is_placed(i),
            forall|kind: int, region: int| final(self).missing(kind, region) == old(self).missing(kind, region),
            forall|i: int|
                0 <= i < 81 ==> #[trigger] final(self).cands(i) == (if i == idx {
                    old(self).cands(i) & !mask
                } else {
                    old(self).cands(i)
                }),
            final(self).shrunk_from(old(self)),
            forall|s: Seq<u8>|
                is_solution(s) ==> (#[trigger] final(self).admits(s) <==> old(self).admits(s) && !has_digit(
                    mask,
                    s[idx as int] as int,
                )),
    {
        let ghost m = self.sukaku.0[idx as int];
        proof {
            lemma_eliminate(m, mask, 0);
            self.lemma_shrunk_self();
            assert forall|s: Seq<u8>| is_solution(s) && old(self).admits(s) && m & mask == 0 implies !has_digit(
                mask,
                s[idx as int] as int,
            ) by {
                assert(has_digit(old(self).cands(idx as int), s[idx as int] as int));
                lemma_eliminate(m, mask, s[idx as int] as u16);
            }
        }
        if self.sukaku.0[idx] & mask != 0 {
            self.sukaku.0[idx] = self.sukaku.0[idx] & !mask;
            proof {
                old(self).lemma_eliminated(self, idx as int, mask);
                old(self).lemma_made(idx as int, mask, self);
            }
            true
        } else {
            proof {
                lemma_within_facts(m, mask, 0, 0);
                assert(m & !mask == m);
                old(self).lemma_made(idx as int, mask, self);
            }
            false
        }
    }

    /// See [`Self::eliminate`].
    proof fn lemma_eliminated(&self, after: &Self, idx: int, mask: u16)
        requires
            self.wf(),
            0 <= idx < 81,
            self.is_placed(idx) ==> !has_digit(mask, single_digit(self.cands(idx))),
            after.count() == self.count(),
            forall|i: int| 0 <= i < 81 ==> after.is_placed(i) == self.is_placed(i),
            forall|kind: int, region: int| after.missing(kind, region) == self.missing(kind, region),
            forall|i: int|
                0 <= i < 81 ==> #[trigger] after.cands(i) == (if i == idx {
                    self.cands(i) & !mask
                } else {
                    self.cands(i)
                }),
        ensures
            after.wf(),
            self.cands(idx) & mask != 0 ==> after.weight() < self.weight(),
            after.shrunk_from(self),
            forall|s: Seq<u8>|
                is_solution(s) ==> (#[trigger] after.admits(s) <==> self.admits(s) && !has_digit(mask, s[idx] as int)),
    {
        let m = self.cands(idx);
        lemma_eliminate(m, mask, 0);
        assert(Seq::new(81, |i: int| after.is_placed(i)) =~= Seq::new(81, |i: int| self.is_placed(i)));
        if self.is_placed(idx) {
            let e = single_digit(m);
            lemma_single_digit(m, e as u16);
            lemma_eliminate(m, mask, e as u16);
            lemma_single_digit(m, e as u16);
            assert(m & mask == 0) by {
                lemma_single_mask(m, mask, e as u16);
            }
            assert(after.cands(idx) == m);
        }
        assert forall|i: int| 0 <= i < 81 implies #[trigger] after.cands(i) <= self.cands(i) && after.cands(i)
            & !ALL_DIGITS_MASK == 0 by {
            lemma_eliminate(self.cands(i), mask, 0);
        }
        assert forall|i: int, e: int| 0 <= i < 81 && #[trigger] has_digit(after.cands(i), e) implies has_digit(
            self.cands(i),
            e,
        ) by {
            lemma_eliminate(self.cands(i), mask, e as u16);
        }
        assert forall|i: int, j: int|
            0 <= i < 81 && 0 <= j < 81 && #[trigger] after.is_placed(i) && peers(i, j) implies !#[trigger] has_digit(
            after.cands(j),
            single_digit(after.cands(i)),
        ) by {
            let e = single_digit(self.cands(i));
            assert(self.is_placed(i));
            assert(!has_digit(self.cands(j), e));
            lemma_eliminate(self.cands(j), mask, e as u16);
        }
        assert forall|kind: int, region: int, e: int|
            0 <= kind < 3 && 0 <= region < 9 && 1 <= e <= 9 implies (#[trigger] has_digit(after.missing(kind, region), e)
            <==> forall|i: int|
            0 <= i < 81 && region_of(kind, i) == region && #[trigger] after.is_placed(i) ==> single_digit(
                after.cands(i),
            ) != e) by {
            assert(has_digit(self.missing(kind, region), e) <==> forall|i: int|
                0 <= i < 81 && region_of(kind, i) == region && #[trigger] self.is_placed(i) ==> single_digit(
                    self.cands(i),
                ) != e);
            assert forall|i: int| 0 <= i < 81 && self.is_placed(i) implies after.cands(i) == self.cands(i) by {}
            if has_digit(self.missing(kind, region), e) {
                assert forall|i: int|
                    0 <= i < 81 && region_of(kind, i) == region && #[trigger] after.is_placed(i) implies single_digit(
                    after.cands(i),
                ) != e by {
                    assert(self.is_placed(i));
                }
            } else {
                let i = choose|i: int|
                    0 <= i < 81 && region_of(kind, i) == region && #[trigger] self.is_placed(i) && single_digit(
                        self.cands(i),
                    ) == e;
                assert(after.is_placed(i));
            }
        }
        lemma_sum_masks_within(
            Seq::new(81, |i: int| after.cands(i)),
            Seq::new(81, |i: int| self.cands(i)),
            81,
        );
        if m & mask != 0 {
            assert(Seq::new(81, |i: int| after.cands(i))[idx] != Seq::new(81, |i: int| self.cands(i))[idx]);
        }
        assert forall|s: Seq<u8>| is_solution(s) implies (#[trigger] after.admits(s) <==> self.admits(s) && !has_digit(
            mask,
            s[idx] as int,
        )) by {
            if after.admits(s) {
                assert forall|i: int| 0 <= i < 81 implies #[trigger] has_digit(self.cands(i), s[i] as int) by {
                    assert(has_digit(after.cands(i), s[i] as int));
                    lemma_eliminate(self.cands(i), mask, s[i] as u16);
                }
                assert(has_digit(after.cands(idx), s[idx] as int));
                lemma_eliminate(m, mask, s[idx] as u16);
            }
            if self.admits(s) && !has_digit(mask, s[idx] as int) {
                assert forall|i: int| 0 <= i < 81 implies #[trigger] has_digit(after.cands(i), s[i] as int) by {
                    assert(has_digit(self.cands(i), s[i] as int));
                    lemma_eliminate(self.cands(i), mask, s[i] as u16);
                }
            }
        }
    }

    /// A state has shrunk from itself.
    proof fn lemma_shrunk_self(&self)
        ensures
            self.shrunk_from(self),
    {
    }

    /// A mask with one set bit holds one digit.
    proof fn lemma_one_candidate(m: u16)
        requires
            m & !ALL_DIGITS_MASK == 0,
            popcount(m as u128) == 1,
        ensures
            1 <= single_digit(m) <= 9,
            has_digit(m, single_digit(m)),
            forall|d: int| has_digit(m, d) ==> d == single_digit(m),
    {
        lemma_popcount_one(m as u128);
        lemma_u16_low_index(m);
        lemma_single_digit(m, 0);
        let e = single_digit(m);
        lemma_digit_masks(0, 0, 0, e as u16, e as u16);
        assert forall|d: int| has_digit(m, d) implies d == e by {
            lemma_digit_masks(0, 0, 0, e as u16, d as u16);
        }
    }

    /// Whether cell `i` is not placed and has no candidate.
    pub open spec fn dead_cell(&self, i: int) -> bool {
        !self.is_placed(i) && popcount(self.cands(i) as u128) == 0
    }

    /// Whether the digits that the cells of a region which are not placed
    /// can take are not the digits that the region lacks.
    pub open spec fn dead_region(&self, kind: int, region: int) -> bool {
        exists|d: int|
            0 <= d < 16 && (#[trigger] self.holders(kind, region, d, 9) >= 1) != has_digit(self.missing(kind, region), d)
    }

    /// Whether the cell at place `k` of a region is the only cell of the
    /// region for each of two digits.
    pub open spec fn torn_cell(&self, kind: int, region: int, k: int) -> bool {
        exists|d1: int, d2: int|
            d1 != d2 && #[trigger] self.holds(kind, region, d1, k) && #[trigger] self.holds(kind, region, d2, k)
                && self.holders(kind, region, d1, 9) == 1 && self.holders(kind, region, d2, 9) == 1
    }

    /// Whether the state shows that it admits no solution: a cell without
    /// a candidate, a region whose cells cannot take what it lacks, or a
    /// cell that is the only one for two digits.
    pub open spec fn contradictory(&self) -> bool {
        ||| exists|i: int| 0 <= i < 81 && #[trigger] self.dead_cell(i)
        ||| exists|kind: int, region: int| 0 <= kind < 3 && 0 <= region < 9 && #[trigger] self.dead_region(kind, region)
        ||| exists|kind: int, region: int, k: int|
            0 <= kind < 3 && 0 <= region < 9 && 0 <= k < 9 && #[trigger] self.torn_cell(kind, region, k)
    }

    /// A state that has shrunk has no more candidates at a cell, and no
    /// more cells for a digit in a region.
    proof fn lemma_shrunk_counts(&self, before: &Self, i: int)
        requires
            self.shrunk_from(before),
            0 <= i < 81,
        ensures
            popcount(self.cands(i) as u128) <= popcount(before.cands(i) as u128),
    {
        let (a, b) = (self.cands(i), before.cands(i));
        let x = a & b;
        if x != a {
            let t = u16_trailing_zeros(x ^ a);
            lemma_differ(x, a, t as u16);
            axiom_u16_trailing_zeros(x ^ a);
            lemma_digit_ops(a, b, t as u16);
            assert(has_digit(a, t as int) ==> has_digit(b, t as int));
            assert(false);
        }
        lemma_within_as_u128(a, b);
        lemma_popcount_within(a as u128, b as u128);
    }

    /// A state that has shrunk has its candidates within those before.
    proof fn lemma_shrunk_mask(&self, before: &Self, i: int)
        requires
            self.shrunk_from(before),
            0 <= i < 81,
        ensures
            self.cands(i) & before.cands(i) == self.cands(i),
    {
        let (a, b) = (self.cands(i), before.cands(i));
        let x = a & b;
        if x != a {
            let t = u16_trailing_zeros(x ^ a);
            lemma_differ(x, a, t as u16);
            axiom_u16_trailing_zeros(x ^ a);
            lemma_digit_ops(a, b, t as u16);
            assert(has_digit(a, t as int) ==> has_digit(b, t as int));
            assert(false);
        }
    }

    /// See [`Self::lemma_shrunk_counts`].
    proof fn lemma_shrunk_holders(&self, before: &Self, kind: int, region: int, d: int, n: int)
        requires
            self.shrunk_from(before),
            0 <= kind < 3,
            0 <= region < 9,
            0 <= n <= 9,
        ensures
            self.holders(kind, region, d, n) <= before.holders(kind, region, d, n),
        decreases n,
    {
        if n > 0 {
            self.lemma_shrunk_holders(before, kind, region, d, n - 1);
            lemma_region_cells(kind, region, n - 1);
            let c = cell_of_region(kind, region, n - 1);
            if self.holds(kind, region, d, n - 1) {
                assert(has_digit(self.cands(c), d));
                assert(!before.is_placed(c));
            }
        }
    }

    /// Whether each cell that is not placed has two candidates at least.
    pub open spec fn no_naked_single(&self) -> bool {
        forall|i: int| 0 <= i < 81 && !(#[trigger] self.is_placed(i)) ==> popcount(self.cands(i) as u128) >= 2
    }

    /// Find and apply all Naked Singles: every cell that is not placed and
    /// has one candidate is placed. `None` where a cell has no candidate.
    fn do_naked_singles(&mut self) -> (r: Option<bool>)
        requires
            old(self).wf(),
        ensures
            final(self).wf(),
            r is None ==> forall|s: Seq<u8>| is_solution(s) ==> !old(self).admits(s),
            forall|s: Seq<u8>| is_solution(s) ==> (#[trigger] final(self).admits(s) <==> old(self).admits(s)),
            final(self).shrunk_from(old(self)),
            r == Some(false) ==> *final(self) == *old(self),
            r == Some(true) ==> final(self).weight() < old(self).weight(),
            final(self).weight() <= old(self).weight(),
            r == Some(false) <==> old(self).no_naked_single(),
            r matches Some(b) ==> b == (*final(self) != *old(self)),
            r is None ==> exists|i: int| 0 <= i < 81 && #[trigger] final(self).dead_cell(i),
            r is Some ==> final(self).naked_made(old(self)),
            (*final(self), r) == old(self).naked_from(0, false),
    {
        let mut made_progress = false;
        let mut idx: usize = 0;
        proof {
            self.lemma_shrunk_self();
        }
        while idx < 81
            invariant
                idx <= 81,
                self.wf(),
                forall|s: Seq<u8>| is_solution(s) ==> (#[trigger] self.admits(s) <==> old(self).admits(s)),
                self.shrunk_from(old(self)),
                !made_progress ==> *self == *old(self),
                made_progress ==> self.weight() < old(self).weight(),
                made_progress ==> !old(self).no_naked_single(),
                !made_progress ==> forall|i: int|
                    0 <= i < idx && !(#[trigger] self.is_placed(i)) ==> popcount(self.cands(i) as u128) >= 2,
                forall|i: int| idx <= i < 81 ==> #[trigger] self.is_placed(i) == old(self).is_placed(i),
                forall|i: int|
                    0 <= i < idx && !old(self).is_placed(i) && popcount(old(self).cands(i) as u128) == 1
                        ==> #[trigger] self.is_placed(i),
                old(self).naked_from(0, false) == self.naked_from(idx as int, made_progress),
            decreases 81 - idx,
        {
            proof {
                self.lemma_shrunk_counts(old(self), idx as int);
            }
            if !self.placed[idx] {
                let mask = self.sukaku.0[idx];
                let n = mask.count_ones();
                proof {
                    if n < 2 && !made_progress {
                        assert(!old(self).is_placed(idx as int));
                    }
                }
                if n == 0 {
                    proof {
                        assert(self.dead_cell(idx as int));
                        lemma_popcount_zero(mask as u128);
                        assert forall|s: Seq<u8>| is_solution(s) implies !old(self).admits(s) by {
                            if self.admits(s) {
                                assert(has_digit(self.cands(idx as int), s[idx as int] as int));
                                lemma_single_digit(mask, s[idx as int] as u16);
                            }
                        }
                    }
                    return None;
                } else if n == 1 {
                    let ghost before = *self;
                    proof {
                        assert(self.cands(idx as int) & !ALL_DIGITS_MASK == 0);
                        Self::lemma_one_candidate(mask);
                    }
                    self.place(idx, mask);
                    proof {
                        assert forall|s: Seq<u8>| is_solution(s) implies (#[trigger] self.admits(s) <==> old(
                            self,
                        ).admits(s)) by {
                            if before.admits(s) {
                                assert(has_digit(before.cands(idx as int), s[idx as int] as int));
                            }
                        }
                        self.lemma_shrunk_chain(&before, old(self));
                    }
                    made_progress = true;
                }
            }
            idx += 1;
        }
        Some(made_progress)
    }

    /// Whether the cell at place `k` of a region is not placed and can
    /// take digit `d`.
    pub open spec fn holds(&self, kind: int, region: int, d: int, k: int) -> bool {
        !self.is_placed(cell_of_region(kind, region, k)) && has_digit(self.cands(cell_of_region(kind, region, k)), d)
    }

    /// How many of the cells of a region up to place `n` are not placed
    /// and can take digit `d`.
    pub open spec fn holders(&self, kind: int, region: int, d: int, n: int) -> int
        decreases n,
    {
        if n <= 0 {
            0
        } else {
            self.holders(kind, region, d, n - 1) + (if self.holds(kind, region, d, n - 1) { 1int } else { 0int })
        }
    }

    /// The count of holders grows with the places looked at.
    proof fn lemma_holders_grow(&self, kind: int, region: int, d: int, m: int, n: int)
        requires
            0 <= m <= n,
        ensures
            0 <= self.holders(kind, region, d, m) <= self.holders(kind, region, d, n),
            self.holders(kind, region, d, m) == self.holders(kind, region, d, n) ==> forall|k: int|
                m <= k < n ==> !#[trigger] self.holds(kind, region, d, k),
        decreases n,
    {
        if m < n {
            self.lemma_holders_grow(kind, region, d, m, n - 1);
        } else if m > 0 {
            self.lemma_holders_grow(kind, region, d, m - 1, m - 1);
            self.lemma_holders_grow(kind, region, d, 0, m - 1);
        }
    }

    /// Where the count is not 0, there is a holder.
    proof fn lemma_holder_exists(&self, kind: int, region: int, d: int, n: int) -> (k: int)
        requires
            0 <= n,
            self.holders(kind, region, d, n) >= 1,
        ensures
            0 <= k < n,
            self.holds(kind, region, d, k),
        decreases n,
    {
        if self.holds(kind, region, d, n - 1) {
            n - 1
        } else {
            self.lemma_holder_exists(kind, region, d, n - 1)
        }
    }

    /// Two holders count twice.
    proof fn lemma_holders_two(&self, kind: int, region: int, d: int, k: int, l: int)
        requires
            0 <= k < l < 9,
            self.holds(kind, region, d, k),
            self.holds(kind, region, d, l),
        ensures
            self.holders(kind, region, d, 9) >= 2,
    {
        self.lemma_holders_grow(kind, region, d, 0, k);
        self.lemma_holders_grow(kind, region, d, k + 1, l);
        self.lemma_holders_grow(kind, region, d, l + 1, 9);
    }

    /// The masks of the digits that one and that several of the cells of
    /// a region that are not placed can take.
    fn scan_region(&self, kind: usize, region: usize) -> (r: (u16, u16))
        requires
            self.wf(),
            kind < 3,
            region < 9,
        ensures
            r.0 & !ALL_DIGITS_MASK == 0,
            r.1 & !ALL_DIGITS_MASK == 0,
            forall|d: int|
                0 <= d < 16 ==> (#[trigger] has_digit(r.0, d) <==> self.holders(kind as int, region as int, d, 9) >= 1),
            forall|d: int|
                0 <= d < 16 ==> (#[trigger] has_digit(r.1, d) <==> self.holders(kind as int, region as int, d, 9) >= 2),
            r == self.scan_from(kind as int, region as int, 0, 0, 0),
    {
        let (mut at_least_once, mut more_than_once) = (0u16, 0u16);
        let mut k: usize = 0;
        proof {
            lemma_digit_ops(0, 0, 0);
            assert forall|d: int| 0 <= d < 16 implies !has_digit(0u16, d) by {
                lemma_digit_ops(0, 0, d as u16);
            }
        }
        while k < 9
            invariant
                k <= 9,
                kind < 3,
                region < 9,
                self.wf(),
                at_least_once & !ALL_DIGITS_MASK == 0,
                more_than_once & !ALL_DIGITS_MASK == 0,
                self.scan_from(kind as int, region as int, 0, 0, 0) == self.scan_from(
                    kind as int,
                    region as int,
                    k as int,
                    at_least_once,
                    more_than_once,
                ),
                forall|d: int|
                    0 <= d < 16 ==> (#[trigger] has_digit(at_least_once, d) <==> self.holders(
                        kind as int,
                        region as int,
                        d,
                        k as int,
                    ) >= 1),
                forall|d: int|
                    0 <= d < 16 ==> (#[trigger] has_digit(more_than_once, d) <==> self.holders(
                        kind as int,
                        region as int,
                        d,
                        k as int,
                    ) >= 2),
            decreases 9 - k,
        {
            let idx = region_cell(kind, region, k);
            let ghost (a, m) = (at_least_once, more_than_once);
            if !self.placed[idx] {
                let mask = self.sukaku.0[idx];
                more_than_once = more_than_once | (at_least_once & mask);
                at_least_once = at_least_once | mask;
                proof {
                    assert(self.cands(idx as int) & !ALL_DIGITS_MASK == 0);
                    lemma_digit_ops(a, mask, 0);
                    lemma_digit_ops(m, a & mask, 0);
                    assert forall|d: int| 0 <= d < 16 implies (#[trigger] has_digit(at_least_once, d)
                        <==> self.holders(kind as int, region as int, d, k + 1) >= 1) by {
                        lemma_digit_ops(a, mask, d as u16);
                        self.lemma_holders_grow(kind as int, region as int, d, 0, k as int);
                        assert(has_digit(a, d) <==> self.holders(kind as int, region as int, d, k as int) >= 1);
                    }
                    assert forall|d: int| 0 <= d < 16 implies (#[trigger] has_digit(more_than_once, d)
                        <==> self.holders(kind as int, region as int, d, k + 1) >= 2) by {
                        lemma_digit_ops(a, mask, d as u16);
                        lemma_digit_ops(m, a & mask, d as u16);
                        self.lemma_holders_grow(kind as int, region as int, d, 0, k as int);
                        assert(has_digit(a, d) <==> self.holders(kind as int, region as int, d, k as int) >= 1);
                        assert(has_digit(m, d) <==> self.holders(kind as int, region as int, d, k as int) >= 2);
                    }
                }
            } else {
                proof {
                    assert forall|d: int| 0 <= d < 16 implies !#[trigger] self.holds(
                        kind as int,
                        region as int,
                        d,
                        k as int,
                    ) by {}
                    assert forall|d: int| 0 <= d < 16 implies (#[trigger] has_digit(at_least_once, d)
                        <==> self.holders(kind as int, region as int, d, k + 1) >= 1) by {
                        assert(!self.holds(kind as int, region as int, d, k as int));
                    }
                    assert forall|d: int| 0 <= d < 16 implies (#[trigger] has_digit(more_than_once, d)
                        <==> self.holders(kind as int, region as int, d, k + 1) >= 2) by {
                        assert(!self.holds(kind as int, region as int, d, k as int));
                    }
                }
            }
            k += 1;
        }
        (at_least_once, more_than_once)
    }

    /// A digit that a single cell of a region can take, the region lacking
    /// the digit, is at that cell in every solution that the state admits.
    proof fn lemma_hidden_single(&self, scan: &Self, kind: int, region: int, k: int, d: int, s: Seq<u8>)
        requires
            self.wf(),
            scan.wf(),
            self.shrunk_from(scan),
            0 <= kind < 3,
            0 <= region < 9,
            0 <= k < 9,
            1 <= d <= 9,
            scan.holders(kind, region, d, 9) == 1,
            has_digit(scan.missing(kind, region), d),
            has_digit(self.cands(cell_of_region(kind, region, k)), d),
            is_solution(s),
            self.admits(s),
        ensures
            s[cell_of_region(kind, region, k)] == d,
            !scan.is_placed(cell_of_region(kind, region, k)),
    {
        let idx = cell_of_region(kind, region, k);
        lemma_region_cells(kind, region, k);
        let l = lemma_solution_region(s, kind, region, d as u8);
        let c = cell_of_region(kind, region, l);
        lemma_region_cells(kind, region, l);
        assert(has_digit(self.cands(c), s[c] as int));
        assert(has_digit(scan.cands(c), d));
        assert(has_digit(scan.cands(idx), d));
        // a cell of the region that can take the digit is not placed
        assert forall|i: int|
            0 <= i < 81 && region_of(kind, i) == region && has_digit(scan.cands(i), d) implies !scan.is_placed(i) by {
            if scan.is_placed(i) {
                let e = single_digit(scan.cands(i));
                lemma_single_digit(scan.cands(i), e as u16);
                lemma_digit_masks(0, 0, 0, e as u16, d as u16);
                assert(e == d);
            }
        }
        assert(scan.holds(kind, region, d, k));
        assert(scan.holds(kind, region, d, l));
        if k < l {
            scan.lemma_holders_two(kind, region, d, k, l);
        } else if l < k {
            scan.lemma_holders_two(kind, region, d, l, k);
        }
    }

    /// Whether, in a region, the digits that the cells which are not placed
    /// can take are the digits that the region lacks, and each of them can go
    /// to two cells at least.
    pub open spec fn region_settled(&self, kind: int, region: int) -> bool {
        forall|d: int|
            0 <= d < 16 ==> (#[trigger] self.holders(kind, region, d, 9)) != 1 && (self.holders(kind, region, d, 9) >= 1
                <==> has_digit(self.missing(kind, region), d))
    }

    /// Whether every region is settled: see [`Self::region_settled`].
    pub open spec fn no_hidden_single(&self) -> bool {
        forall|kind: int, region: int| 0 <= kind < 3 && 0 <= region < 9 ==> #[trigger] self.region_settled(kind, region)
    }

    /// Whether the cells of a region are as in `before`: the same are
    /// placed, and each can take the same digits.
    pub open spec fn region_same(&self, before: &Self, kind: int, region: int) -> bool {
        forall|k: int|
            0 <= k < 9 ==> self.cands(#[trigger] cell_of_region(kind, region, k)) == before.cands(
                cell_of_region(kind, region, k),
            ) && self.is_placed(cell_of_region(kind, region, k)) == before.is_placed(cell_of_region(kind, region, k))
    }

    /// Whether every region whose cells are as in `before` is settled:
    /// where a hidden single was there to find, its cell is placed.
    pub open spec fn singled_out(&self, before: &Self) -> bool {
        forall|kind: int, region: int|
            0 <= kind < 3 && 0 <= region < 9 && #[trigger] self.region_same(before, kind, region) ==> self.region_settled(
                kind,
                region,
            )
    }

    /// Regions with the same cells have the same cells for a digit.
    proof fn lemma_holders_same(&self, other: &Self, kind: int, region: int, d: int, n: int)
        requires
            self.region_same(other, kind, region),
            0 <= n <= 9,
        ensures
            self.holders(kind, region, d, n) == other.holders(kind, region, d, n),
        decreases n,
    {
        if n > 0 {
            self.lemma_holders_same(other, kind, region, d, n - 1);
            let c = cell_of_region(kind, region, n - 1);
            assert(self.cands(c) == other.cands(c) && self.is_placed(c) == other.is_placed(c));
        }
    }

    /// Regions with the same cells lack the same digits.
    proof fn lemma_missing_same(&self, other: &Self, kind: int, region: int, d: int)
        requires
            self.wf(),
            other.wf(),
            0 <= kind < 3,
            0 <= region < 9,
            0 <= d < 16,
            self.region_same(other, kind, region),
            has_digit(other.missing(kind, region), d),
        ensures
            has_digit(self.missing(kind, region), d),
    {
        assert(other.missing(kind, region) & !ALL_DIGITS_MASK == 0);
        lemma_single_digit(other.missing(kind, region), d as u16);
        assert(1 <= d <= 9);
        assert forall|i: int| 0 <= i < 81 && region_of(kind, i) == region && #[trigger] self.is_placed(i) implies single_digit(
            self.cands(i),
        ) != d by {
            lemma_cell_region(kind, i);
            let k = place_in_region(kind, i);
            assert(cell_of_region(kind, region, k) == i);
            assert(other.is_placed(i) && other.cands(i) == self.cands(i));
        }
    }

    /// A region that is settled is settled in a state with the same cells
    /// in it.
    proof fn lemma_settled_same(&self, mid: &Self, kind: int, region: int)
        requires
            self.wf(),
            mid.wf(),
            0 <= kind < 3,
            0 <= region < 9,
            self.region_same(mid, kind, region),
            mid.region_settled(kind, region),
        ensures
            self.region_settled(kind, region),
    {
        assert(mid.region_same(self, kind, region));
        assert forall|d: int| 0 <= d < 16 implies (#[trigger] self.holders(kind, region, d, 9)) != 1 && (self.holders(
            kind,
            region,
            d,
            9,
        ) >= 1 <==> has_digit(self.missing(kind, region), d)) by {
            self.lemma_holders_same(mid, kind, region, d, 9);
            assert(mid.holders(kind, region, d, 9) != 1);
            if has_digit(mid.missing(kind, region), d) {
                self.lemma_missing_same(mid, kind, region, d);
            }
            if has_digit(self.missing(kind, region), d) {
                mid.lemma_missing_same(self, kind, region, d);
            }
        }
    }

    /// A region whose cells are at the end as at the start has the same
    /// cells in between.
    proof fn lemma_region_between(&self, mid: &Self, before: &Self, kind: int, region: int)
        requires
            self.shrunk_from(mid),
            mid.shrunk_from(before),
            0 <= kind < 3,
            0 <= region < 9,
            self.region_same(before, kind, region),
        ensures
            self.region_same(mid, kind, region),
            mid.region_same(before, kind, region),
    {
        assert forall|k: int| 0 <= k < 9 implies self.cands(#[trigger] cell_of_region(kind, region, k)) == mid.cands(
            cell_of_region(kind, region, k),
        ) && self.is_placed(cell_of_region(kind, region, k)) == mid.is_placed(cell_of_region(kind, region, k))
            && mid.cands(cell_of_region(kind, region, k)) == before.cands(cell_of_region(kind, region, k))
            && mid.is_placed(cell_of_region(kind, region, k)) == before.is_placed(cell_of_region(kind, region, k)) by {
            lemma_region_cells(kind, region, k);
            let c = cell_of_region(kind, region, k);
            assert(self.cands(c) <= mid.cands(c) && mid.cands(c) <= before.cands(c));
            assert(before.is_placed(c) ==> mid.is_placed(c));
            assert(mid.is_placed(c) ==> self.is_placed(c));
        }
    }

    /// A region that is settled unless its cells have changed stays so
    /// while the state shrinks.
    proof fn lemma_singled_kept(&self, mid: &Self, before: &Self, kind: int, region: int)
        requires
            self.wf(),
            mid.wf(),
            self.shrunk_from(mid),
            mid.shrunk_from(before),
            0 <= kind < 3,
            0 <= region < 9,
            mid.region_same(before, kind, region) ==> mid.region_settled(kind, region),
        ensures
            self.region_same(before, kind, region) ==> self.region_settled(kind, region),
    {
        if self.region_same(before, kind, region) {
            self.lemma_region_between(mid, before, kind, region);
            self.lemma_settled_same(mid, kind, region);
        }
    }

    /// A mask that is not empty holds a digit.
    proof fn lemma_some_digit(x: u16) -> (d: int)
        requires
            x != 0,
        ensures
            has_digit(x, d),
    {
        let t = u16_trailing_zeros(x ^ 0u16);
        lemma_differ(x, 0, t as u16);
        axiom_u16_trailing_zeros(x ^ 0u16);
        lemma_digit_ops(0, 0, t as u16);
        t as int
    }

    /// Find and apply all Hidden Singles: in each region, a digit that a
    /// single cell can take is placed there. `None` where a region lacks a
    /// digit that none of its cells can take, or where a cell is the single
    /// one for two digits.
    fn do_hidden_singles(&mut self) -> (r: Option<bool>)
        requires
            old(self).wf(),
        ensures
            final(self).wf(),
            r is None ==> forall|s: Seq<u8>| is_solution(s) ==> !old(self).admits(s),
            forall|s: Seq<u8>| is_solution(s) ==> (#[trigger] final(self).admits(s) <==> old(self).admits(s)),
            final(self).shrunk_from(old(self)),
            r == Some(false) ==> *final(self) == *old(self),
            r == Some(true) ==> final(self).weight() < old(self).weight(),
            final(self).weight() <= old(self).weight(),
            r == Some(false) <==> old(self).no_hidden_single(),
            r matches Some(b) ==> b == (*final(self) != *old(self)),
            r is None ==> final(self).contradictory(),
            r is Some ==> final(self).singled_out(old(self)),
            (*final(self), r) == old(self).hidden_kinds(0, false),
    {
        let mut made_progress = false;
        let mut kind: usize = 0;
        proof {
            self.lemma_shrunk_self();
        }
        while kind < 3
            invariant
                kind <= 3,
                self.wf(),
                forall|s: Seq<u8>| is_solution(s) ==> (#[trigger] self.admits(s) <==> old(self).admits(s)),
                self.shrunk_from(old(self)),
                !made_progress ==> *self == *old(self),
                made_progress ==> self.weight() < old(self).weight(),
                made_progress ==> !old(self).no_hidden_single(),
                !made_progress ==> forall|k2: int, r2: int|
                    0 <= k2 < kind && 0 <= r2 < 9 ==> #[trigger] self.region_settled(k2, r2),
                forall|k2: int, r2: int|
                    0 <= k2 < kind && 0 <= r2 < 9 && #[trigger] self.region_same(old(self), k2, r2)
                        ==> self.region_settled(k2, r2),
                old(self).hidden_kinds(0, false) == self.hidden_kinds(kind as int, made_progress),
            decreases 3 - kind,
        {
            let mut region: usize = 0;
            while region < 9
                invariant
                    region <= 9,
                    kind < 3,
                    self.wf(),
                    forall|s: Seq<u8>| is_solution(s) ==> (#[trigger] self.admits(s) <==> old(self).admits(s)),
                    self.shrunk_from(old(self)),
                    !made_progress ==> *self == *old(self),
                    made_progress ==> self.weight() < old(self).weight(),
                    made_progress ==> !old(self).no_hidden_single(),
                    !made_progress ==> forall|k2: int, r2: int|
                        0 <= k2 < kind && 0 <= r2 < 9 ==> #[trigger] self.region_settled(k2, r2),
                    !made_progress ==> forall|r2: int|
                        0 <= r2 < region ==> #[trigger] self.region_settled(kind as int, r2),
                    forall|k2: int, r2: int|
                        0 <= k2 < 3 && 0 <= r2 < 9 && (k2 < kind || (k2 == kind && r2 < region))
                            && #[trigger] self.region_same(old(self), k2, r2) ==> self.region_settled(k2, r2),
                    old(self).hidden_kinds(0, false) == self.hidden_regions(kind as int, region as int, made_progress),
                decreases 9 - region,
            {
                let (at_least_once, more_than_once) = self.scan_region(kind, region);
                let missing = self.get_missing(kind, region);
                let ghost scan = *self;
                if at_least_once != missing {
                    proof {
                        self.lemma_missing_digit(kind as int, region as int, at_least_once);
                        let t = u16_trailing_zeros(at_least_once ^ missing);
                        lemma_differ(at_least_once, missing, t as u16);
                        axiom_u16_trailing_zeros(at_least_once ^ missing);
                        assert(has_digit(at_least_once, t as int) != has_digit(missing, t as int));
                        assert((self.holders(kind as int, region as int, t as int, 9) >= 1) != has_digit(
                            self.missing(kind as int, region as int),
                            t as int,
                        ));
                        assert(!self.region_settled(kind as int, region as int));
                        assert(self.dead_region(kind as int, region as int));
                    }
                    return None;
                }
                let exactly_once = at_least_once & !more_than_once;
                let ghost mut once: int = 0;
                proof {
                    if exactly_once != 0 {
                        once = Self::lemma_some_digit(exactly_once);
                        lemma_digit_ops(at_least_once, more_than_once, once as u16);
                        assert(has_digit(at_least_once, once) && !has_digit(more_than_once, once));
                        assert(self.holders(kind as int, region as int, once, 9) == 1);
                        assert(!self.region_settled(kind as int, region as int));
                    } else {
                        assert forall|d: int| 0 <= d < 16 implies (#[trigger] self.holders(
                            kind as int,
                            region as int,
                            d,
                            9,
                        )) != 1 && (self.holders(kind as int, region as int, d, 9) >= 1 <==> has_digit(
                            self.missing(kind as int, region as int),
                            d,
                        )) by {
                            lemma_digit_ops(at_least_once, more_than_once, d as u16);
                            assert(has_digit(at_least_once, d) <==> self.holders(kind as int, region as int, d, 9) >= 1);
                            assert(has_digit(more_than_once, d) <==> self.holders(kind as int, region as int, d, 9) >= 2);
                        }
                        assert(self.region_settled(kind as int, region as int));
                    }
                }
                let ghost mut touched = false;
                let ghost mut taken: int = 0;
                if exactly_once != 0 {
                    let mut k: usize = 0;
                    while k < 9
                        invariant
                            k <= 9,
                            !old(self).no_hidden_single(),
                            !touched ==> *self == scan,
                            touched ==> made_progress,
                            touched ==> 0 <= taken < 9 && self.is_placed(
                                cell_of_region(kind as int, region as int, taken),
                            ) && !scan.is_placed(cell_of_region(kind as int, region as int, taken)),
                            has_digit(exactly_once, once),
                            scan.holders(kind as int, region as int, once, 9) >= 1,
                            !touched ==> forall|l: int|
                                0 <= l < k ==> self.cands(#[trigger] cell_of_region(kind as int, region as int, l))
                                    & exactly_once == 0,
                            old(self).hidden_kinds(0, false) == self.hidden_cells(
                                kind as int,
                                region as int,
                                exactly_once,
                                k as int,
                                made_progress,
                            ),
                            kind < 3,
                            region < 9,
                            self.wf(),
                            scan.wf(),
                            self.shrunk_from(&scan),
                            forall|s: Seq<u8>| is_solution(s) ==> (#[trigger] self.admits(s) <==> old(self).admits(s)),
                            self.shrunk_from(old(self)),
                            !made_progress ==> *self == *old(self),
                            made_progress ==> self.weight() < old(self).weight(),
                            exactly_once == at_least_once & !more_than_once,
                            at_least_once == scan.missing(kind as int, region as int),
                            forall|d: int|
                                0 <= d < 16 ==> (#[trigger] has_digit(at_least_once, d) <==> scan.holders(
                                    kind as int,
                                    region as int,
                                    d,
                                    9,
                                ) >= 1),
                            forall|d: int|
                                0 <= d < 16 ==> (#[trigger] has_digit(more_than_once, d) <==> scan.holders(
                                    kind as int,
                                    region as int,
                                    d,
                                    9,
                                ) >= 2),
                            forall|l: int|
                                k <= l < 9 ==> self.is_placed(#[trigger] cell_of_region(kind as int, region as int, l))
                                    == scan.is_placed(cell_of_region(kind as int, region as int, l)),
                        decreases 9 - k,
                    {
                        let idx = region_cell(kind, region, k);
                        let hit = self.sukaku.0[idx] & exactly_once;
                        let n = hit.count_ones();
                        let ghost before = *self;
                        proof {
                            assert(self.cands(idx as int) & !ALL_DIGITS_MASK == 0);
                            lemma_digit_ops(self.cands(idx as int), exactly_once, 0);
                        }
                        if n == 1 {
                            proof {
                                Self::lemma_one_candidate(hit);
                                let d = single_digit(hit);
                                lemma_digit_ops(self.cands(idx as int), exactly_once, d as u16);
                                lemma_digit_ops(at_least_once, more_than_once, d as u16);
                                assert(has_digit(at_least_once, d));
                                assert(!has_digit(more_than_once, d));
                                // the cell is not placed: its digit would not be missing
                                assert(has_digit(hit, d));
                                assert(has_digit(self.cands(idx as int), d));
                                if scan.is_placed(idx as int) {
                                    let e = single_digit(scan.cands(idx as int));
                                    assert(has_digit(scan.cands(idx as int), d));
                                    lemma_single_digit(scan.cands(idx as int), e as u16);
                                    lemma_digit_masks(0, 0, 0, e as u16, d as u16);
                                    assert(e == d);
                                    assert(false);
                                }
                                assert(cell_of_region(kind as int, region as int, k as int) == idx);
                                assert(!self.is_placed(idx as int));
                            }
                            self.place(idx, hit);
                            proof {
                                let d = single_digit(hit);
                                assert forall|s: Seq<u8>| is_solution(s) implies (#[trigger] self.admits(s) <==> old(
                                    self,
                                ).admits(s)) by {
                                    if before.admits(s) {
                                        before.lemma_hidden_single(&scan, kind as int, region as int, k as int, d, s);
                                    }
                                }
                                self.lemma_shrunk_chain(&before, old(self));
                                self.lemma_shrunk_chain(&before, &scan);
                                assert forall|l: int| k + 1 <= l < 9 implies self.is_placed(
                                    #[trigger] cell_of_region(kind as int, region as int, l),
                                ) == scan.is_placed(cell_of_region(kind as int, region as int, l)) by {
                                    lemma_region_cells(kind as int, region as int, l);
                                    lemma_region_cells(kind as int, region as int, k as int);
                                }
                                if !touched {
                                    taken = k as int;
                                    assert(!scan.is_placed(idx as int));
                                } else {
                                    lemma_region_cells(kind as int, region as int, taken);
                                }
                                touched = true;
                            }
                            made_progress = true;
                        } else if n != 0 {
                            proof {
                                lemma_popcount_zero(hit as u128);
                                lemma_popcount_one(hit as u128);
                                lemma_u16_low_index(hit);
                                let rest = hit & ((hit - 1) as u16);
                                assert(rest != 0);
                                let low = hit ^ rest;
                                let (d1, d2) = (u16_trailing_zeros(low), u16_trailing_zeros(rest));
                                axiom_u16_trailing_zeros(low);
                                axiom_u16_trailing_zeros(rest);
                                lemma_two_digits(hit, d1 as u16, d2 as u16);
                                assert(has_digit(hit, d1 as int) && has_digit(hit, d2 as int));
                                lemma_digit_ops(self.cands(idx as int), exactly_once, d1 as u16);
                                lemma_digit_ops(self.cands(idx as int), exactly_once, d2 as u16);
                                lemma_digit_ops(at_least_once, more_than_once, d1 as u16);
                                lemma_digit_ops(at_least_once, more_than_once, d2 as u16);
                                lemma_single_digit(at_least_once, d1 as u16);
                                lemma_single_digit(at_least_once, d2 as u16);
                                assert(has_digit(at_least_once, d1 as int) && !has_digit(more_than_once, d1 as int));
                                assert(has_digit(at_least_once, d2 as int) && !has_digit(more_than_once, d2 as int));
                                assert(has_digit(self.cands(idx as int), d1 as int));
                                assert(has_digit(self.cands(idx as int), d2 as int));
                                // the cell is not placed: its digit would not be missing
                                if scan.is_placed(idx as int) {
                                    let e = single_digit(scan.cands(idx as int));
                                    assert(has_digit(scan.cands(idx as int), d1 as int));
                                    lemma_single_digit(scan.cands(idx as int), e as u16);
                                    lemma_digit_masks(0, 0, 0, e as u16, d1 as u16);
                                    assert(e == d1);
                                    assert(false);
                                }
                                assert(cell_of_region(kind as int, region as int, k as int) == idx);
                                assert(!self.is_placed(idx as int));
                                assert(self.holds(kind as int, region as int, d1 as int, k as int));
                                assert(self.holds(kind as int, region as int, d2 as int, k as int));
                                self.lemma_shrunk_holders(&scan, kind as int, region as int, d1 as int, 9);
                                self.lemma_shrunk_holders(&scan, kind as int, region as int, d2 as int, 9);
                                self.lemma_holders_grow(kind as int, region as int, d1 as int, 0, k as int);
                                self.lemma_holders_grow(kind as int, region as int, d1 as int, k as int + 1, 9);
                                self.lemma_holders_grow(kind as int, region as int, d2 as int, 0, k as int);
                                self.lemma_holders_grow(kind as int, region as int, d2 as int, k as int + 1, 9);
                                assert(self.torn_cell(kind as int, region as int, k as int));
                                assert forall|s: Seq<u8>| is_solution(s) implies !old(self).admits(s) by {
                                    if self.admits(s) {
                                        self.lemma_hidden_single(&scan, kind as int, region as int, k as int, d1 as int, s);
                                        self.lemma_hidden_single(&scan, kind as int, region as int, k as int, d2 as int, s);
                                    }
                                }
                            }
                            return None;
                        }
                        proof {
                            if n == 0 {
                                lemma_popcount_zero(hit as u128);
                            }
                        }
                        k += 1;
                    }
                    proof {
                        if !touched {
                            let l = scan.lemma_holder_exists(kind as int, region as int, once, 9);
                            let c = cell_of_region(kind as int, region as int, l);
                            assert(has_digit(self.cands(c), once));
                            lemma_digit_ops(self.cands(c), exactly_once, once as u16);
                            assert(false);
                        }
                    }
                }
                proof {
                    if scan != *self {
                    } else {
                        self.lemma_shrunk_self();
                    }
                    assert(self.shrunk_from(&scan));
                    assert forall|k2: int, r2: int|
                        0 <= k2 < 3 && 0 <= r2 < 9 && (k2 < kind || (k2 == kind && r2 < region + 1))
                            && #[trigger] self.region_same(old(self), k2, r2) implies self.region_settled(k2, r2) by {
                        if k2 == kind && r2 == region {
                            if touched {
                                let c = cell_of_region(kind as int, region as int, taken);
                                lemma_region_cells(kind as int, region as int, taken);
                                assert(old(self).is_placed(c) ==> scan.is_placed(c));
                                assert(self.is_placed(c) == old(self).is_placed(c));
                                assert(false);
                            } else {
                                assert(scan.region_settled(kind as int, region as int));
                            }
                        } else {
                            self.lemma_singled_kept(&scan, old(self), k2, r2);
                        }
                    }
                }
                region += 1;
            }
            kind += 1;
        }
        proof {
            if !made_progress {
                assert forall|k2: int, r2: int| 0 <= k2 < 3 && 0 <= r2 < 9 implies #[trigger] self.region_settled(
                    k2,
                    r2,
                ) by {}
            }
        }
        Some(made_progress)
    }

    /// Where the digits that the cells of a region can take are not the
    /// digits that the region lacks, the state admits no solution.
    proof fn lemma_missing_digit(&self, kind: int, region: int, at_least_once: u16)
        requires
            self.wf(),
            0 <= kind < 3,
            0 <= region < 9,
            at_least_once & !ALL_DIGITS_MASK == 0,
            forall|d: int|
                0 <= d < 16 ==> (#[trigger] has_digit(at_least_once, d) <==> self.holders(kind, region, d, 9) >= 1),
            at_least_once != self.missing(kind, region),
        ensures
            forall|s: Seq<u8>| is_solution(s) ==> !self.admits(s),
    {
        let missing = self.missing(kind, region);
        let x = at_least_once ^ missing;
        let t = u16_trailing_zeros(x);
        lemma_differ(at_least_once, missing, t as u16);
        axiom_u16_trailing_zeros(x);
        let d = t as int;
        assert(has_digit(at_least_once, d) != has_digit(missing, d));
        lemma_single_digit(at_least_once, t as u16);
        lemma_single_digit(missing, t as u16);
        assert(1 <= d <= 9);
        if has_digit(at_least_once, d) {
            // a cell can take a digit that is placed in the region
            let k = self.lemma_holder_exists(kind, region, d, 9);
            let i = choose|i: int|
                0 <= i < 81 && region_of(kind, i) == region && #[trigger] self.is_placed(i) && single_digit(
                    self.cands(i),
                ) == d;
            let j = cell_of_region(kind, region, k);
            lemma_region_cells(kind, region, k);
            lemma_region_peers(kind, i, j);
            assert(!has_digit(self.cands(j), single_digit(self.cands(i))));
            assert(false);
        } else {
            assert forall|s: Seq<u8>| is_solution(s) implies !self.admits(s) by {
                if self.admits(s) {
                    let l = lemma_solution_region(s, kind, region, d as u8);
                    let c = cell_of_region(kind, region, l);
                    lemma_region_cells(kind, region, l);
                    assert(has_digit(self.cands(c), s[c] as int));
                    if self.is_placed(c) {
                        let e = single_digit(self.cands(c));
                        lemma_single_digit(self.cands(c), e as u16);
                        lemma_digit_masks(0, 0, 0, e as u16, d as u16);
                    } else {
                        assert(self.holds(kind, region, d, l));
                        self.lemma_holders_grow(kind, region, d, 0, l);
                        self.lemma_holders_grow(kind, region, d, l + 1, 9);
                    }
                }
            }
        }
    }

    /// Whether a cell of a region of kind `left` that can take digit `d`
    /// lies in the region `target` of kind `right`.
    pub open spec fn pointed(&self, left: int, left_idx: int, right: int, d: int, target: int) -> bool {
        exists|l: int|
            0 <= l < 9 && has_digit(self.cands(cell_of_region(left, left_idx, l)), d) && #[trigger] region_of(
                right,
                cell_of_region(left, left_idx, l),
            ) == target
    }

    /// Whether the cells of a region of kind `left` that can take digit `d`
    /// all lie in the region `target` of kind `right`, and there is such a
    /// cell.
    pub open spec fn confined(&self, left: int, left_idx: int, right: int, d: int, target: int) -> bool {
        &&& self.pointed(left, left_idx, right, d, target)
        &&& forall|l: int|
            0 <= l < 9 && has_digit(self.cands(#[trigger] cell_of_region(left, left_idx, l)), d) ==> region_of(
                right,
                cell_of_region(left, left_idx, l),
            ) == target
    }

    /// Whether the cell at place `k` of the region `target` of kind `right`
    /// lies outside the given region of kind `left` and can take digit `d`.
    pub open spec fn beside(&self, left: int, left_idx: int, right: int, target: int, d: int, k: int) -> bool {
        region_of(left, cell_of_region(right, target, k)) != left_idx && has_digit(
            self.cands(cell_of_region(right, target, k)),
            d,
        )
    }

    /// Whether digit `d`, where it is confined to a region of kind `right`
    /// within the given region of kind `left`, can go nowhere else in that
    /// region of kind `right`.
    pub open spec fn pair_quiet(&self, left: int, left_idx: int, right: int, d: int) -> bool {
        forall|target: int, k: int|
            0 <= target < 9 && 0 <= k < 9 && self.confined(left, left_idx, right, d, target) ==> !#[trigger] self.beside(
                left,
                left_idx,
                right,
                target,
                d,
                k,
            )
    }

    /// Whether no region of kind `left` has a digit that it lacks confined
    /// to a region of kind `right` in which the digit can go elsewhere too.
    pub open spec fn no_intersection(&self, left: int, right: int) -> bool {
        forall|left_idx: int, d: int|
            0 <= left_idx < 9 && 1 <= d <= 9 && has_digit(self.missing(left, left_idx), d) ==> #[trigger] self.pair_quiet(
                left,
                left_idx,
                right,
                d,
            )
    }

    /// Whether the same cells can take digit `d` as in `before`.
    pub open spec fn same_digit(&self, before: &Self, d: int) -> bool {
        forall|i: int| 0 <= i < 81 ==> has_digit(#[trigger] self.cands(i), d) == has_digit(before.cands(i), d)
    }

    /// Whether each digit that a region of kind `left` lacks, and that
    /// the same cells can take as in `before`, can go nowhere else in the
    /// region of kind `right` to which it is confined: where a pointing
    /// or claiming step was there to find, it is made.
    pub open spec fn pointed_out(&self, before: &Self, left: int, right: int) -> bool {
        forall|left_idx: int, d: int|
            0 <= left_idx < 9 && 1 <= d <= 9 && has_digit(before.missing(left, left_idx), d) && self.same_digit(before, d)
                ==> #[trigger] self.pair_quiet(left, left_idx, right, d)
    }

    /// A digit that the same cells can take at the end as at the start can
    /// be taken by the same cells in between.
    proof fn lemma_same_digit_between(&self, mid: &Self, before: &Self, d: int)
        requires
            self.shrunk_from(mid),
            mid.shrunk_from(before),
            self.same_digit(before, d),
        ensures
            self.same_digit(mid, d),
            mid.same_digit(before, d),
    {
        assert forall|i: int| 0 <= i < 81 implies has_digit(#[trigger] self.cands(i), d) == has_digit(mid.cands(i), d)
            && has_digit(mid.cands(i), d) == has_digit(before.cands(i), d) by {
            assert(has_digit(self.cands(i), d) == has_digit(before.cands(i), d));
            if has_digit(mid.cands(i), d) {
                assert(has_digit(before.cands(i), d));
            }
            if has_digit(self.cands(i), d) {
                assert(has_digit(mid.cands(i), d));
            }
        }
        assert forall|i: int| 0 <= i < 81 implies has_digit(#[trigger] mid.cands(i), d) == has_digit(
            before.cands(i),
            d,
        ) by {
            assert(has_digit(self.cands(i), d) == has_digit(mid.cands(i), d));
        }
    }

    /// A digit that is quiet in a region stays quiet while the same cells
    /// can take it.
    proof fn lemma_pair_kept(&self, mid: &Self, left: int, left_idx: int, right: int, d: int)
        requires
            0 <= left < 3,
            0 <= right < 3,
            0 <= left_idx < 9,
            self.same_digit(mid, d),
            mid.pair_quiet(left, left_idx, right, d),
        ensures
            self.pair_quiet(left, left_idx, right, d),
    {
        assert forall|target: int, k: int|
            0 <= target < 9 && 0 <= k < 9 && self.confined(left, left_idx, right, d, target) implies !#[trigger] self.beside(
            left,
            left_idx,
            right,
            target,
            d,
            k,
        ) by {
            assert forall|l: int| 0 <= l < 9 implies has_digit(
                self.cands(#[trigger] cell_of_region(left, left_idx, l)),
                d,
            ) == has_digit(mid.cands(cell_of_region(left, left_idx, l)), d) by {
                lemma_region_cells(left, left_idx, l);
            }
            let l0 = choose|l: int|
                0 <= l < 9 && has_digit(self.cands(cell_of_region(left, left_idx, l)), d) && #[trigger] region_of(
                    right,
                    cell_of_region(left, left_idx, l),
                ) == target;
            assert(has_digit(mid.cands(cell_of_region(left, left_idx, l0)), d));
            assert(mid.pointed(left, left_idx, right, d, target));
            assert(mid.confined(left, left_idx, right, d, target));
            assert(!mid.beside(left, left_idx, right, target, d, k));
            lemma_region_cells(right, target, k);
        }
    }

    /// What was pointed out by the state `mid` since `before` is pointed
    /// out by a state that has shrunk from `mid`; and with `since`, what
    /// is pointed out since `mid` is pointed out since `before`.
    proof fn lemma_pointed_out(&self, mid: &Self, before: &Self, left: int, right: int, since: bool)
        requires
            0 <= left < 3,
            0 <= right < 3,
            self.shrunk_from(mid),
            mid.shrunk_from(before),
            mid.same_placed(before),
            if since {
                self.pointed_out(mid, left, right)
            } else {
                mid.pointed_out(before, left, right)
            },
        ensures
            self.pointed_out(before, left, right),
    {
        assert forall|left_idx: int, d: int|
            0 <= left_idx < 9 && 1 <= d <= 9 && has_digit(before.missing(left, left_idx), d) && self.same_digit(
                before,
                d,
            ) implies #[trigger] self.pair_quiet(left, left_idx, right, d) by {
            self.lemma_same_digit_between(mid, before, d);
            assert(mid.missing(left, left_idx) == before.missing(left, left_idx));
            if since {
                assert(self.pair_quiet(left, left_idx, right, d));
            } else {
                assert(mid.pair_quiet(left, left_idx, right, d));
                self.lemma_pair_kept(mid, left, left_idx, right, d);
            }
        }
    }

    /// Whether no pointing and no claiming step applies.
    pub open spec fn no_intersections(&self) -> bool {
        self.no_intersection(0, 2) && self.no_intersection(1, 2) && self.no_intersection(2, 0)
            && self.no_intersection(2, 1)
    }

    /// Find and apply all Pointing and Claiming steps: rows and columns
    /// against boxes, then boxes against rows and columns.
    fn do_intersections(&mut self) -> (r: bool)
        requires
            old(self).wf(),
        ensures
            final(self).same_placed(old(self)),
            r == (*final(self) != *old(self)),
            final(self).wf(),
            forall|s: Seq<u8>| is_solution(s) ==> (#[trigger] final(self).admits(s) <==> old(self).admits(s)),
            final(self).shrunk_from(old(self)),
            !r ==> *final(self) == *old(self),
            r ==> final(self).weight() < old(self).weight(),
            !r <==> old(self).no_intersections(),
            final(self).pointed_out(old(self), 0, 2),
            final(self).pointed_out(old(self), 1, 2),
            final(self).pointed_out(old(self), 2, 0),
            final(self).pointed_out(old(self), 2, 1),
            (*final(self), r) == old(self).point_all(),
    {
        let ghost start = *self;
        let first = self.intersections_between(0, 2);
        let ghost one = *self;
        let second = self.intersections_between(1, 2);
        let ghost two = *self;
        let third = self.intersections_between(2, 0);
        let ghost three = *self;
        let fourth = self.intersections_between(2, 1);
        proof {
            two.lemma_shrunk_chain(&one, &start);
            three.lemma_shrunk_chain(&two, &start);
            self.lemma_shrunk_chain(&three, &start);
            self.lemma_shrunk_chain(&three, &two);
            self.lemma_shrunk_chain(&two, &one);
            three.lemma_shrunk_chain(&two, &one);
            start.lemma_shrunk_self();
            // rows against boxes: made by the first pass, kept by the others
            self.lemma_pointed_out(&one, &start, 0, 2, false);
            // columns against boxes
            two.lemma_pointed_out(&one, &start, 1, 2, true);
            self.lemma_pointed_out(&two, &start, 1, 2, false);
            // boxes against rows
            three.lemma_pointed_out(&two, &start, 2, 0, true);
            self.lemma_pointed_out(&three, &start, 2, 0, false);
            // boxes against columns
            self.lemma_pointed_out(&three, &start, 2, 1, true);
        }
        first || second || third || fourth
    }

    /// For each region of kind `left` and each digit that it lacks: where the
    /// cells of the region that can take the digit all lie in one region of
    /// kind `right`, the other cells of that region cannot take the digit.
    fn intersections_between(&mut self, left: usize, right: usize) -> (r: bool)
        requires
            old(self).wf(),
            left < 3,
            right < 3,
        ensures
            final(self).same_placed(old(self)),
            r == (*final(self) != *old(self)),
            final(self).wf(),
            forall|s: Seq<u8>| is_solution(s) ==> (#[trigger] final(self).admits(s) <==> old(self).admits(s)),
            final(self).shrunk_from(old(self)),
            !r ==> *final(self) == *old(self),
            r ==> final(self).weight() < old(self).weight(),
            final(self).weight() <= old(self).weight(),
            !r <==> old(self).no_intersection(left as int, right as int),
            final(self).pointed_out(old(self), left as int, right as int),
            (*final(self), r) == old(self).point_regions(left as int, right as int, 0, false),
    {
        let mut made_progress = false;
        let mut left_idx: usize = 0;
        proof {
            self.lemma_shrunk_self();
        }
        while left_idx < 9
            invariant
                self.same_placed(old(self)),
                left_idx <= 9,
                left < 3,
                right < 3,
                self.wf(),
                forall|s: Seq<u8>| is_solution(s) ==> (#[trigger] self.admits(s) <==> old(self).admits(s)),
                self.shrunk_from(old(self)),
                !made_progress ==> *self == *old(self),
                made_progress ==> self.weight() < old(self).weight(),
                made_progress ==> !old(self).no_intersection(left as int, right as int),
                !made_progress ==> forall|li: int, d: int|
                    0 <= li < left_idx && 1 <= d <= 9 && has_digit(self.missing(left as int, li), d)
                        ==> #[trigger] self.pair_quiet(left as int, li, right as int, d),
                forall|li: int, d: int|
                    0 <= li < left_idx && 1 <= d <= 9 && has_digit(old(self).missing(left as int, li), d)
                        && self.same_digit(old(self), d) ==> #[trigger] self.pair_quiet(left as int, li, right as int, d),
                old(self).point_regions(left as int, right as int, 0, false) == self.point_regions(
                    left as int,
                    right as int,
                    left_idx as int,
                    made_progress,
                ),
            decreases 9 - left_idx,
        {
            let missing = self.get_missing(left, left_idx);
            let mut digits = MaskIter::<u16>::from(missing);
            let ghost mut unread = missing;
            let mut next = digits.next();
            proof {
                assert(self.missing(left as int, left_idx as int) & !ALL_DIGITS_MASK == 0);
                lemma_lowest_digit(missing);
            }
            while next.is_some()
                invariant
                    self.same_placed(old(self)),
                    left_idx < 9,
                    left < 3,
                    right < 3,
                    self.wf(),
                    forall|s: Seq<u8>| is_solution(s) ==> (#[trigger] self.admits(s) <==> old(self).admits(s)),
                    self.shrunk_from(old(self)),
                    !made_progress ==> *self == *old(self),
                    made_progress ==> self.weight() < old(self).weight(),
                    digits@ & !ALL_DIGITS_MASK == 0,
                    next matches Some(m) ==> 1 <= single_digit(m) <= 9,
                    made_progress ==> !old(self).no_intersection(left as int, right as int),
                    !made_progress ==> forall|li: int, d: int|
                        0 <= li < left_idx && 1 <= d <= 9 && has_digit(self.missing(left as int, li), d)
                            ==> #[trigger] self.pair_quiet(left as int, li, right as int, d),
                    !made_progress ==> missing == self.missing(left as int, left_idx as int),
                    missing == old(self).missing(left as int, left_idx as int),
                    old(self).point_regions(left as int, right as int, 0, false) == self.point_digits(
                        left as int,
                        right as int,
                        left_idx as int,
                        unread,
                        made_progress,
                    ),
                    forall|li: int, d: int|
                        0 <= li < left_idx && 1 <= d <= 9 && has_digit(old(self).missing(left as int, li), d)
                            && self.same_digit(old(self), d) ==> #[trigger] self.pair_quiet(
                            left as int,
                            li,
                            right as int,
                            d,
                        ),
                    forall|d: int|
                        1 <= d <= 9 && has_digit(missing, d) && !has_digit(unread, d) && self.same_digit(old(self), d)
                            ==> #[trigger] self.pair_quiet(left as int, left_idx as int, right as int, d),
                    unread & !ALL_DIGITS_MASK == 0,
                    next == (if unread == 0 { None } else { Some(lowest16(unread)) }),
                    digits@ == without_lowest16(unread),
                    forall|d: int| has_digit(unread, d) ==> has_digit(missing, d),
                    !made_progress ==> forall|d: int|
                        1 <= d <= 9 && has_digit(missing, d) && !has_digit(unread, d) ==> #[trigger] self.pair_quiet(
                            left as int,
                            left_idx as int,
                            right as int,
                            d,
                        ),
                decreases (if next.is_some() { 1int } else { 0int }) + digits@ as int,
            {
                let mask = next.unwrap();
                let ghost d0 = single_digit(mask);
                let ghost at_digit = *self;
                let ghost progress_before = made_progress;
                proof {
                    lemma_single_digit(mask, d0 as u16);
                    lemma_lowest_parts(unread, d0 as u16);
                    lemma_digit_masks(0, 0, 0, d0 as u16, d0 as u16);
                    assert(has_digit(mask, d0));
                    assert(has_digit(unread, d0));
                    assert(has_digit(missing, d0));
                }
                let seen = self.pointing_targets(left, left_idx, right, mask);
                let found = all_equal_value(&seen);
                proof {
                    if let Some(right_idx) = found {
                        assert(self.pointed(left as int, left_idx as int, right as int, d0, seen@[0] as int));
                        let l = choose|l: int|
                            0 <= l < 9 && has_digit(self.cands(cell_of_region(left as int, left_idx as int, l)), d0)
                                && #[trigger] region_of(right as int, cell_of_region(left as int, left_idx as int, l))
                                == seen@[0] as int;
                        lemma_region_cells(left as int, left_idx as int, l);
                        lemma_cell_region(right as int, cell_of_region(left as int, left_idx as int, l));
                        assert(right_idx < 9);
                        assert(self.confined(left as int, left_idx as int, right as int, d0, right_idx as int));
                        self.lemma_target(left as int, left_idx as int, right as int, d0, right_idx as int);
                    } else {
                        // the digit is confined to no region
                        assert forall|target: int| 0 <= target < 9 implies !self.confined(
                            left as int,
                            left_idx as int,
                            right as int,
                            d0,
                            target,
                        ) by {
                            if self.confined(left as int, left_idx as int, right as int, d0, target) {
                                let l = choose|l: int|
                                    0 <= l < 9 && has_digit(
                                        self.cands(cell_of_region(left as int, left_idx as int, l)),
                                        d0,
                                    ) && #[trigger] region_of(right as int, cell_of_region(left as int, left_idx as int, l))
                                        == target;
                                assert(has_digit(self.cands(cell_of_region(left as int, left_idx as int, l)), d0));
                                assert(seen@.len() > 0);
                                let (i, j) = choose|i: int, j: int|
                                    0 <= i < seen@.len() && 0 <= j < seen@.len() && seen@[i] != seen@[j];
                                assert(self.pointed(left as int, left_idx as int, right as int, d0, seen@[i] as int));
                                assert(self.pointed(left as int, left_idx as int, right as int, d0, seen@[j] as int));
                                assert(false);
                            }
                        }
                        assert(self.pair_quiet(left as int, left_idx as int, right as int, d0));
                    }
                }
                if let Some(right_idx) = found {
                    if right_idx < 9 {
                        let ghost before = *self;
                        let changed = self.eliminate_outside(left, left_idx, right, right_idx, mask);
                        proof {
                            self.lemma_shrunk_chain(&before, old(self));
                            if changed {
                                if !made_progress {
                                    let k = choose|k: int|
                                        0 <= k < 9 && #[trigger] before.beside(
                                            left as int,
                                            left_idx as int,
                                            right as int,
                                            right_idx as int,
                                            d0,
                                            k,
                                        );
                                    assert(!before.pair_quiet(left as int, left_idx as int, right as int, d0));
                                    assert(!old(self).no_intersection(left as int, right as int));
                                }
                            } else {
                                assert forall|target: int, k: int|
                                    0 <= target < 9 && 0 <= k < 9 && before.confined(
                                        left as int,
                                        left_idx as int,
                                        right as int,
                                        d0,
                                        target,
                                    ) implies !#[trigger] before.beside(
                                    left as int,
                                    left_idx as int,
                                    right as int,
                                    target,
                                    d0,
                                    k,
                                ) by {
                                    assert(target == right_idx);
                                }
                                assert(before.pair_quiet(left as int, left_idx as int, right as int, d0));
                            }
                        }
                        made_progress = made_progress || changed;
                    }
                }
                proof {
                    // the digit is quiet in its region now
                    if at_digit != *self {
                    } else {
                        self.lemma_shrunk_self();
                    }
                    assert(self.shrunk_from(&at_digit));
                    if found is Some {
                        let right_idx = found.unwrap();
                        assert forall|target: int, k: int|
                            0 <= target < 9 && 0 <= k < 9 && self.confined(
                                left as int,
                                left_idx as int,
                                right as int,
                                d0,
                                target,
                            ) implies !#[trigger] self.beside(left as int, left_idx as int, right as int, target, d0, k) by {
                            let l0 = choose|l: int|
                                0 <= l < 9 && has_digit(self.cands(cell_of_region(left as int, left_idx as int, l)), d0)
                                    && #[trigger] region_of(right as int, cell_of_region(left as int, left_idx as int, l))
                                    == target;
                            assert(has_digit(at_digit.cands(cell_of_region(left as int, left_idx as int, l0)), d0));
                            assert(target == right_idx);
                        }
                    }
                    assert(self.pair_quiet(left as int, left_idx as int, right as int, d0));
                    // and what was quiet stays quiet
                    assert forall|li: int, d: int|
                        0 <= li < left_idx && 1 <= d <= 9 && has_digit(old(self).missing(left as int, li), d)
                            && self.same_digit(old(self), d) implies #[trigger] self.pair_quiet(
                        left as int,
                        li,
                        right as int,
                        d,
                    ) by {
                        self.lemma_same_digit_between(&at_digit, old(self), d);
                        self.lemma_pair_kept(&at_digit, left as int, li, right as int, d);
                    }
                    assert forall|d: int|
                        1 <= d <= 9 && has_digit(missing, d) && !has_digit(unread, d) && self.same_digit(old(self), d)
                        implies #[trigger] self.pair_quiet(left as int, left_idx as int, right as int, d) by {
                        self.lemma_same_digit_between(&at_digit, old(self), d);
                        self.lemma_pair_kept(&at_digit, left as int, left_idx as int, right as int, d);
                    }
                }
                let ghost rest = digits@;
                next = digits.next();
                proof {
                    assert forall|d: int|
                        1 <= d <= 9 && has_digit(missing, d) && !has_digit(rest, d) && self.same_digit(old(self), d)
                        implies #[trigger] self.pair_quiet(left as int, left_idx as int, right as int, d) by {
                        lemma_lowest_parts(unread, d as u16);
                        lemma_digit_masks(0, 0, 0, d0 as u16, d as u16);
                        if has_digit(unread, d) {
                            assert(d == d0);
                        }
                    }
                    lemma_lowest_digit(rest);
                    assert forall|d: int| has_digit(rest, d) implies has_digit(missing, d) by {
                        lemma_lowest_parts(unread, d as u16);
                    }
                    if !made_progress {
                        assert forall|d: int|
                            1 <= d <= 9 && has_digit(missing, d) && !has_digit(rest, d) implies #[trigger] self.pair_quiet(
                            left as int,
                            left_idx as int,
                            right as int,
                            d,
                        ) by {
                            lemma_lowest_parts(unread, d as u16);
                            lemma_digit_masks(0, 0, 0, d0 as u16, d as u16);
                            if has_digit(unread, d) {
                                assert(d == d0);
                            }
                        }
                    }
                    unread = rest;
                }
            }
            proof {
                assert forall|li: int, d: int|
                    0 <= li < left_idx + 1 && 1 <= d <= 9 && has_digit(old(self).missing(left as int, li), d)
                        && self.same_digit(old(self), d) implies #[trigger] self.pair_quiet(
                    left as int,
                    li,
                    right as int,
                    d,
                ) by {
                    if li == left_idx {
                        lemma_digit_ops(0, 0, d as u16);
                        assert(!has_digit(unread, d));
                    }
                }
                if !made_progress {
                    assert forall|li: int, d: int|
                        0 <= li < left_idx + 1 && 1 <= d <= 9 && has_digit(
                            self.missing(left as int, li),
                            d,
                        ) implies #[trigger] self.pair_quiet(left as int, li, right as int, d) by {
                        if li == left_idx {
                            lemma_digit_ops(0, 0, d as u16);
                            assert(!has_digit(unread, d));
                        }
                    }
                }
            }
            left_idx += 1;
        }
        made_progress
    }

    /// The regions of kind `right` of the cells of a region of kind `left`
    /// that can take the digit of `mask`.
    fn pointing_targets(&self, left: usize, left_idx: usize, right: usize, mask: u16) -> (seen: Vec<usize>)
        requires
            left < 3,
            right < 3,
            left_idx < 9,
            1 <= single_digit(mask) <= 9,
        ensures
            forall|l: int|
                0 <= l < 9 && has_digit(
                    self.cands(#[trigger] cell_of_region(left as int, left_idx as int, l)),
                    single_digit(mask),
                ) ==> exists|j: int|
                    0 <= j < seen@.len() && #[trigger] seen@[j] == region_of(
                        right as int,
                        cell_of_region(left as int, left_idx as int, l),
                    ),
            forall|j: int|
                0 <= j < seen@.len() ==> self.pointed(
                    left as int,
                    left_idx as int,
                    right as int,
                    single_digit(mask),
                    #[trigger] seen@[j] as int,
                ),
    {
        let ghost d = single_digit(mask);
        proof {
            lemma_single_digit(mask, d as u16);
        }
        let mut seen: Vec<usize> = Vec::new();
        let mut k: usize = 0;
        while k < 9
            invariant
                k <= 9,
                left_idx < 9,
                left < 3,
                right < 3,
                forall|l: int|
                    0 <= l < k && has_digit(self.cands(#[trigger] cell_of_region(left as int, left_idx as int, l)), d)
                        ==> exists|j: int|
                        0 <= j < seen@.len() && #[trigger] seen@[j] == region_of(
                            right as int,
                            cell_of_region(left as int, left_idx as int, l),
                        ),
                forall|j: int|
                    0 <= j < seen@.len() ==> self.pointed(
                        left as int,
                        left_idx as int,
                        right as int,
                        d,
                        #[trigger] seen@[j] as int,
                    ),
                1 <= d <= 9,
                mask == 1u16 << (d as u16),
            decreases 9 - k,
        {
            let idx = region_cell(left, left_idx, k);
            if self.sukaku.0[idx] & mask != 0 {
                let ghost seen_before = seen@;
                seen.push(region_index(right, idx));
                proof {
                    let n = seen@.len() - 1;
                    assert(seen@[n] == region_of(right as int, idx as int));
                    assert forall|j: int| 0 <= j < seen@.len() implies self.pointed(
                        left as int,
                        left_idx as int,
                        right as int,
                        d,
                        #[trigger] seen@[j] as int,
                    ) by {
                        if j < n {
                            assert(seen@[j] == seen_before[j]);
                        } else {
                            assert(region_of(right as int, cell_of_region(left as int, left_idx as int, k as int))
                                == seen@[j]);
                        }
                    }
                    assert forall|l: int|
                        0 <= l < k + 1 && has_digit(
                            self.cands(#[trigger] cell_of_region(left as int, left_idx as int, l)),
                            d,
                        ) implies exists|j: int|
                        0 <= j < seen@.len() && #[trigger] seen@[j] == region_of(
                            right as int,
                            cell_of_region(left as int, left_idx as int, l),
                        ) by {
                        if l < k {
                            let j = choose|j: int|
                                0 <= j < seen_before.len() && #[trigger] seen_before[j] == region_of(
                                    right as int,
                                    cell_of_region(left as int, left_idx as int, l),
                                );
                            assert(seen@[j] == seen_before[j]);
                        } else {
                            assert(seen@[seen@.len() - 1] == region_of(
                                right as int,
                                cell_of_region(left as int, left_idx as int, l),
                            ));
                        }
                    }
                }
            }
            k += 1;
        }
        seen
    }

    /// Takes the digit of `mask` from the cells of a region of kind
    /// `right` that are not in the given region of kind `left`, where every
    /// cell of the latter that can take the digit lies in the former.
    fn eliminate_outside(&mut self, left: usize, left_idx: usize, right: usize, right_idx: usize, mask: u16) -> (r:
        bool)
        requires
            old(self).wf(),
            left < 3,
            right < 3,
            left_idx < 9,
            right_idx < 9,
            1 <= single_digit(mask) <= 9,
            old(self).pointed(left as int, left_idx as int, right as int, single_digit(mask), right_idx as int),
            forall|l: int|
                0 <= l < 9 && has_digit(
                    old(self).cands(#[trigger] cell_of_region(left as int, left_idx as int, l)),
                    single_digit(mask),
                ) ==> region_of(right as int, cell_of_region(left as int, left_idx as int, l)) == right_idx,
        ensures
            final(self).same_placed(old(self)),
            r == (*final(self) != *old(self)),
            final(self).wf(),
            forall|s: Seq<u8>| is_solution(s) ==> (#[trigger] final(self).admits(s) <==> old(self).admits(s)),
            final(self).shrunk_from(old(self)),
            !r ==> *final(self) == *old(self),
            r ==> final(self).weight() < old(self).weight(),
            final(self).weight() <= old(self).weight(),
            r ==> exists|k: int|
                0 <= k < 9 && #[trigger] old(self).beside(
                    left as int,
                    left_idx as int,
                    right as int,
                    right_idx as int,
                    single_digit(mask),
                    k,
                ),
            !r ==> forall|k: int|
                0 <= k < 9 ==> !#[trigger] old(self).beside(
                    left as int,
                    left_idx as int,
                    right as int,
                    right_idx as int,
                    single_digit(mask),
                    k,
                ),
            forall|k: int|
                0 <= k < 9 ==> !#[trigger] final(self).beside(
                    left as int,
                    left_idx as int,
                    right as int,
                    right_idx as int,
                    single_digit(mask),
                    k,
                ),
            forall|l: int|
                0 <= l < 9 ==> final(self).cands(#[trigger] cell_of_region(left as int, left_idx as int, l)) == old(
                    self,
                ).cands(cell_of_region(left as int, left_idx as int, l)),
            (*final(self), r) == old(self).outside_from(
                left as int,
                left_idx as int,
                right as int,
                right_idx as int,
                mask,
                0,
                false,
            ),
    {
        let ghost d = single_digit(mask);
        let mut made_progress = false;
        let mut k: usize = 0;
        proof {
            lemma_single_digit(mask, d as u16);
            self.lemma_shrunk_self();
        }
        while k < 9
            invariant
                self.same_placed(old(self)),
                k <= 9,
                left_idx < 9,
                right_idx < 9,
                left < 3,
                right < 3,
                self.wf(),
                forall|s: Seq<u8>| is_solution(s) ==> (#[trigger] self.admits(s) <==> old(self).admits(s)),
                self.shrunk_from(old(self)),
                !made_progress ==> *self == *old(self),
                made_progress ==> self.weight() < old(self).weight(),
                made_progress ==> exists|l: int|
                    0 <= l < 9 && #[trigger] old(self).beside(
                        left as int,
                        left_idx as int,
                        right as int,
                        right_idx as int,
                        d,
                        l,
                    ),
                !made_progress ==> forall|l: int|
                    0 <= l < k ==> !#[trigger] self.beside(
                        left as int,
                        left_idx as int,
                        right as int,
                        right_idx as int,
                        d,
                        l,
                    ),
                forall|l: int|
                    0 <= l < k ==> !#[trigger] self.beside(
                        left as int,
                        left_idx as int,
                        right as int,
                        right_idx as int,
                        d,
                        l,
                    ),
                old(self).outside_from(left as int, left_idx as int, right as int, right_idx as int, mask, 0, false)
                    == self.outside_from(
                    left as int,
                    left_idx as int,
                    right as int,
                    right_idx as int,
                    mask,
                    k as int,
                    made_progress,
                ),
                1 <= d <= 9,
                d == single_digit(mask),
                mask == 1u16 << (d as u16),
                old(self).pointed(left as int, left_idx as int, right as int, d, right_idx as int),
                forall|l: int|
                    0 <= l < 9 && has_digit(
                        old(self).cands(#[trigger] cell_of_region(left as int, left_idx as int, l)),
                        d,
                    ) ==> region_of(right as int, cell_of_region(left as int, left_idx as int, l)) == right_idx,
                forall|l: int|
                    0 <= l < 9 ==> self.cands(#[trigger] cell_of_region(left as int, left_idx as int, l)) == old(
                        self,
                    ).cands(cell_of_region(left as int, left_idx as int, l)),
            decreases 9 - k,
        {
            let idx = region_cell(right, right_idx, k);
            let ghost at_cell = *self;
            if region_index(left, idx) != left_idx {
                let ghost before = *self;
                proof {
                    lemma_digit_masks(0, 0, 0, d as u16, d as u16);
                    if self.is_placed(idx as int) && has_digit(mask, single_digit(self.cands(idx as int))) {
                        let e = single_digit(self.cands(idx as int));
                        lemma_digit_masks(0, 0, 0, d as u16, e as u16);
                        assert(e == d);
                        let l = choose|l: int|
                            0 <= l < 9 && has_digit(old(self).cands(cell_of_region(left as int, left_idx as int, l)), d)
                                && #[trigger] region_of(right as int, cell_of_region(left as int, left_idx as int, l))
                                == right_idx as int;
                        let c = cell_of_region(left as int, left_idx as int, l);
                        lemma_region_cells(left as int, left_idx as int, l);
                        lemma_region_peers(right as int, idx as int, c);
                        assert(!has_digit(self.cands(c), single_digit(self.cands(idx as int))));
                        assert(false);
                    }
                }
                let changed = self.eliminate(idx, mask);
                proof {
                    assert forall|s: Seq<u8>| is_solution(s) implies (#[trigger] self.admits(s) <==> old(self).admits(
                        s,
                    )) by {
                        if before.admits(s) {
                            before.lemma_pointing(
                                old(self),
                                left as int,
                                left_idx as int,
                                right as int,
                                right_idx as int,
                                d,
                                idx as int,
                                s,
                            );
                            lemma_digit_masks(0, 0, 0, d as u16, s[idx as int] as u16);
                        }
                    }
                    self.lemma_shrunk_chain(&before, old(self));
                    assert forall|l: int| 0 <= l < 9 implies self.cands(
                        #[trigger] cell_of_region(left as int, left_idx as int, l),
                    ) == old(self).cands(cell_of_region(left as int, left_idx as int, l)) by {
                        lemma_region_cells(left as int, left_idx as int, l);
                    }
                    if changed && !made_progress {
                        assert(old(self).beside(
                            left as int,
                            left_idx as int,
                            right as int,
                            right_idx as int,
                            d,
                            k as int,
                        ));
                    }
                }
                made_progress = made_progress || changed;
            }
            proof {
                assert forall|l: int| 0 <= l < k + 1 implies !#[trigger] self.beside(
                    left as int,
                    left_idx as int,
                    right as int,
                    right_idx as int,
                    d,
                    l,
                ) by {
                    lemma_region_cells(right as int, right_idx as int, l);
                    lemma_region_cells(right as int, right_idx as int, k as int);
                    let c = cell_of_region(right as int, right_idx as int, l);
                    if l < k {
                        assert(!at_cell.beside(left as int, left_idx as int, right as int, right_idx as int, d, l));
                        assert(self.cands(c) == at_cell.cands(c));
                    } else {
                        lemma_digit_masks(at_cell.cands(c), 0, 0, d as u16, d as u16);
                    }
                }
            }
            k += 1;
        }
        made_progress
    }

    /// The cell of a region of kind `left` where a solution has digit `d`
    /// can take the digit, so it lies in the region of kind `right` where
    /// all such cells lie: no other cell of that region has the digit.
    proof fn lemma_pointing(
        &self,
        at_scan: &Self,
        left: int,
        left_idx: int,
        right: int,
        right_idx: int,
        d: int,
        idx: int,
        s: Seq<u8>,
    )
        requires
            0 <= left < 3,
            0 <= right < 3,
            0 <= left_idx < 9,
            0 <= right_idx < 9,
            1 <= d <= 9,
            0 <= idx < 81,
            self.shrunk_from(at_scan),
            region_of(right, idx) == right_idx,
            region_of(left, idx) != left_idx,
            forall|l: int|
                0 <= l < 9 && has_digit(at_scan.cands(#[trigger] cell_of_region(left, left_idx, l)), d) ==> region_of(
                    right,
                    cell_of_region(left, left_idx, l),
                ) == right_idx,
            is_solution(s),
            self.admits(s),
        ensures
            s[idx] != d,
    {
        let l = lemma_solution_region(s, left, left_idx, d as u8);
        let c = cell_of_region(left, left_idx, l);
        lemma_region_cells(left, left_idx, l);
        assert(has_digit(self.cands(c), s[c] as int));
        assert(has_digit(at_scan.cands(c), d));
        assert(region_of(right, c) == right_idx);
        lemma_region_peers(right, c, idx);
        assert(s[c] != 0);
    }

    /// Find and apply all Naked and Hidden Subsets
    fn do_all_subsets(&mut self) -> (r: bool)
        requires
            old(self).wf(),
        ensures
            final(self).same_placed(old(self)),
            r == (*final(self) != *old(self)),
            final(self).wf(),
            forall|s: Seq<u8>| is_solution(s) ==> (#[trigger] final(self).admits(s) <==> old(self).admits(s)),
            final(self).shrunk_from(old(self)),
            !r ==> *final(self) == *old(self),
            r ==> final(self).weight() < old(self).weight(),
            !r <==> old(self).no_subset_steps(),
            final(self).eased_all(old(self), 2),
            final(self).eased_all(old(self), 3),
            final(self).eased_all(old(self), 4),
            (*final(self), r) == old(self).subsets_all(),
    {
        let ghost start = *self;
        let pairs = self.do_subsets(2);
        let ghost one = *self;
        let triples = self.do_subsets(3);
        let ghost two = *self;
        let quads = self.do_subsets(4);
        proof {
            two.lemma_shrunk_chain(&one, &start);
            self.lemma_shrunk_chain(&two, &start);
            start.lemma_shrunk_self();
            // pairs: eased by the first pass, kept by the others
            two.lemma_eased_all(&one, &start, 2, false);
            self.lemma_eased_all(&two, &start, 2, false);
            // triples: eased since the first pass
            two.lemma_eased_all(&one, &start, 3, true);
            self.lemma_eased_all(&two, &start, 3, false);
            // quads: eased since the second pass
            self.lemma_eased_all(&two, &start, 4, true);
        }
        pairs || triples || quads
    }

    /// How many of the places up to `n` are in `subset`.
    pub open spec fn count_in(subset: u16, n: int) -> int
        decreases n,
    {
        if n <= 0 {
            0
        } else {
            Self::count_in(subset, n - 1) + (if has_digit(subset, n - 1) { 1int } else { 0int })
        }
    }

    /// The digits that the cells of a region at the places of `subset` up to
    /// `n` can take.
    pub open spec fn union_at(&self, kind: int, region: int, subset: u16, n: int) -> u16
        decreases n,
    {
        if n <= 0 {
            0
        } else if has_digit(subset, n - 1) {
            self.union_at(kind, region, subset, n - 1) | self.cands(cell_of_region(kind, region, n - 1))
        } else {
            self.union_at(kind, region, subset, n - 1)
        }
    }

    /// The digits that `s` has at the cells of a region at the places of
    /// `subset` up to `n`.
    pub open spec fn digits_at(s: Seq<u8>, kind: int, region: int, subset: u16, n: int) -> u16
        decreases n,
    {
        if n <= 0 {
            0
        } else if has_digit(subset, n - 1) {
            Self::digits_at(s, kind, region, subset, n - 1) | (1u16 << s[cell_of_region(kind, region, n - 1)])
        } else {
            Self::digits_at(s, kind, region, subset, n - 1)
        }
    }

    /// The places of a region, up to `n`, whose cells are not placed.
    pub open spec fn open_places(&self, kind: int, region: int, n: int) -> u16
        decreases n,
    {
        if n <= 0 {
            0
        } else if !self.is_placed(cell_of_region(kind, region, n - 1)) {
            self.open_places(kind, region, n - 1) | (1u16 << ((n - 1) as u16))
        } else {
            self.open_places(kind, region, n - 1)
        }
    }

    /// How many cells of a region, up to place `n`, are not placed.
    pub open spec fn open_count(&self, kind: int, region: int, n: int) -> int
        decreases n,
    {
        if n <= 0 {
            0
        } else {
            self.open_count(kind, region, n - 1) + (if !self.is_placed(cell_of_region(kind, region, n - 1)) {
                1int
            } else {
                0int
            })
        }
    }

    /// Whether the cell at place `k` of a region is not placed and can take
    /// both a digit of the cells at the places of `subset` and another one.
    pub open spec fn spills(&self, kind: int, region: int, subset: u16, k: int) -> bool {
        &&& !self.is_placed(cell_of_region(kind, region, k))
        &&& self.cands(cell_of_region(kind, region, k)) & !self.union_at(kind, region, subset, 9) != 0
        &&& self.cands(cell_of_region(kind, region, k)) & self.union_at(kind, region, subset, 9) != 0
    }

    /// Whether the cells at the places of `subset`, where they can take as
    /// many digits as they are, leave nothing to take from the other cells
    /// of the region.
    pub open spec fn subset_quiet(&self, kind: int, region: int, subset: u16) -> bool {
        popcount(self.union_at(kind, region, subset, 9) as u128) == Self::count_in(subset, 9) ==> forall|k: int|
            0 <= k < 9 ==> !#[trigger] self.spills(kind, region, subset, k)
    }

    /// Whether `subset` holds places of cells that are not placed only: `sz`
    /// of them, or all but `sz` of those of the region.
    pub open spec fn sized(&self, kind: int, region: int, subset: u16, sz: int) -> bool {
        &&& subset & self.open_places(kind, region, 9) == subset
        &&& (Self::count_in(subset, 9) == sz || Self::count_in(subset, 9) == self.open_count(kind, region, 9) - sz)
    }

    /// Whether every subset of that size of a region whose cells can take
    /// the digits that they could take in `before` is quiet: where a naked
    /// subset was there to find, its digits are taken from the other cells.
    pub open spec fn eased(&self, before: &Self, kind: int, region: int, sz: int) -> bool {
        forall|subset: u16| #[trigger]
            before.sized(kind, region, subset, sz) && self.union_at(kind, region, subset, 9) == before.union_at(
                kind,
                region,
                subset,
                9,
            ) ==> self.subset_quiet(kind, region, subset)
    }

    /// Whether the subsets of that size of every region that lacks
    /// `2 * sz` digits at least are eased: see [`Self::eased`].
    pub open spec fn eased_all(&self, before: &Self, sz: int) -> bool {
        forall|kind: int, region: int|
            0 <= kind < 3 && 0 <= region < 9 && popcount(before.missing(kind, region) as u128) >= 2 * sz
                && before.open_count(kind, region, 9) >= 2 * sz ==> #[trigger] self.eased(before, kind, region, sz)
    }

    /// The union of a subset shrinks with the state.
    proof fn lemma_union_shrunk(&self, before: &Self, kind: int, region: int, subset: u16, n: int)
        requires
            self.shrunk_from(before),
            0 <= kind < 3,
            0 <= region < 9,
            0 <= n <= 9,
        ensures
            self.union_at(kind, region, subset, n) & before.union_at(kind, region, subset, n) == self.union_at(
                kind,
                region,
                subset,
                n,
            ),
        decreases n,
    {
        lemma_within_facts(0, 0, 0, 0);
        if n > 0 {
            self.lemma_union_shrunk(before, kind, region, subset, n - 1);
            lemma_region_cells(kind, region, n - 1);
            let c = cell_of_region(kind, region, n - 1);
            self.lemma_shrunk_mask(before, c);
            lemma_within_facts(
                self.union_at(kind, region, subset, n - 1),
                before.union_at(kind, region, subset, n - 1),
                self.cands(c),
                before.cands(c),
            );
        }
    }

    /// With the same cells placed, the same places of a region are open.
    proof fn lemma_open_same(&self, other: &Self, kind: int, region: int, n: int)
        requires
            0 <= kind < 3,
            0 <= region < 9,
            0 <= n <= 9,
            forall|i: int| 0 <= i < 81 ==> #[trigger] self.is_placed(i) == other.is_placed(i),
        ensures
            self.open_places(kind, region, n) == other.open_places(kind, region, n),
            self.open_count(kind, region, n) == other.open_count(kind, region, n),
        decreases n,
    {
        if n > 0 {
            self.lemma_open_same(other, kind, region, n - 1);
            lemma_region_cells(kind, region, n - 1);
            let c = cell_of_region(kind, region, n - 1);
            assert(self.is_placed(c) == other.is_placed(c));
        }
    }

    /// A subset that is quiet stays quiet while the state shrinks and the
    /// union of the subset stays.
    proof fn lemma_quiet_kept(&self, mid: &Self, kind: int, region: int, subset: u16)
        requires
            self.shrunk_from(mid),
            0 <= kind < 3,
            0 <= region < 9,
            forall|i: int| 0 <= i < 81 ==> #[trigger] self.is_placed(i) == mid.is_placed(i),
            self.union_at(kind, region, subset, 9) == mid.union_at(kind, region, subset, 9),
            mid.subset_quiet(kind, region, subset),
        ensures
            self.subset_quiet(kind, region, subset),
    {
        let u = self.union_at(kind, region, subset, 9);
        if popcount(u as u128) == Self::count_in(subset, 9) {
            assert forall|k: int| 0 <= k < 9 implies !#[trigger] self.spills(kind, region, subset, k) by {
                lemma_region_cells(kind, region, k);
                let c = cell_of_region(kind, region, k);
                self.lemma_shrunk_mask(mid, c);
                assert(self.is_placed(c) == mid.is_placed(c));
                assert(!mid.spills(kind, region, subset, k));
                lemma_within_facts(self.cands(c), mid.cands(c), u, 0);
                lemma_within_facts(self.cands(c), mid.cands(c), !u, 0);
            }
        }
    }

    /// What is eased stays eased while the state shrinks.
    proof fn lemma_eased_kept(&self, mid: &Self, before: &Self, kind: int, region: int, sz: int)
        requires
            self.shrunk_from(mid),
            mid.shrunk_from(before),
            0 <= kind < 3,
            0 <= region < 9,
            forall|i: int| 0 <= i < 81 ==> #[trigger] self.is_placed(i) == mid.is_placed(i),
            mid.eased(before, kind, region, sz),
        ensures
            self.eased(before, kind, region, sz),
    {
        assert forall|subset: u16| #[trigger]
            before.sized(kind, region, subset, sz) && self.union_at(kind, region, subset, 9) == before.union_at(
                kind,
                region,
                subset,
                9,
            ) implies self.subset_quiet(kind, region, subset) by {
            self.lemma_union_shrunk(mid, kind, region, subset, 9);
            mid.lemma_union_shrunk(before, kind, region, subset, 9);
            lemma_within_facts(
                self.union_at(kind, region, subset, 9),
                mid.union_at(kind, region, subset, 9),
                before.union_at(kind, region, subset, 9),
                0,
            );
            self.lemma_quiet_kept(mid, kind, region, subset);
        }
    }

    /// What is eased since a state in between is eased since the state
    /// before, where the same cells were placed.
    proof fn lemma_eased_since(&self, mid: &Self, before: &Self, kind: int, region: int, sz: int)
        requires
            self.shrunk_from(mid),
            mid.shrunk_from(before),
            0 <= kind < 3,
            0 <= region < 9,
            forall|i: int| 0 <= i < 81 ==> #[trigger] mid.is_placed(i) == before.is_placed(i),
            self.eased(mid, kind, region, sz),
        ensures
            self.eased(before, kind, region, sz),
    {
        mid.lemma_open_same(before, kind, region, 9);
        assert forall|subset: u16| #[trigger]
            before.sized(kind, region, subset, sz) && self.union_at(kind, region, subset, 9) == before.union_at(
                kind,
                region,
                subset,
                9,
            ) implies self.subset_quiet(kind, region, subset) by {
            self.lemma_union_shrunk(mid, kind, region, subset, 9);
            mid.lemma_union_shrunk(before, kind, region, subset, 9);
            lemma_within_facts(
                self.union_at(kind, region, subset, 9),
                mid.union_at(kind, region, subset, 9),
                before.union_at(kind, region, subset, 9),
                0,
            );
            assert(mid.sized(kind, region, subset, sz));
        }
    }

    /// See [`Self::lemma_eased_kept`] and [`Self::lemma_eased_since`], for
    /// every region: what was eased since `before` by the state `mid` is
    /// eased by a state that has shrunk from `mid`, and what is eased since
    /// `mid` is eased since `before`.
    proof fn lemma_eased_all(&self, mid: &Self, before: &Self, sz: int, since: bool)
        requires
            self.shrunk_from(mid),
            mid.shrunk_from(before),
            self.same_placed(mid),
            mid.same_placed(before),
            if since {
                self.eased_all(mid, sz)
            } else {
                mid.eased_all(before, sz)
            },
        ensures
            self.eased_all(before, sz),
    {
        assert forall|kind: int, region: int|
            0 <= kind < 3 && 0 <= region < 9 && popcount(before.missing(kind, region) as u128) >= 2 * sz
                && before.open_count(kind, region, 9) >= 2 * sz implies #[trigger] self.eased(
            before,
            kind,
            region,
            sz,
        ) by {
            mid.lemma_open_same(before, kind, region, 9);
            assert(mid.missing(kind, region) == before.missing(kind, region));
            if since {
                assert(self.eased(mid, kind, region, sz));
                self.lemma_eased_since(mid, before, kind, region, sz);
            } else {
                assert(mid.eased(before, kind, region, sz));
                self.lemma_eased_kept(mid, before, kind, region, sz);
            }
        }
    }

    /// Whether every subset of that size is quiet.
    pub open spec fn all_quiet(&self, kind: int, region: int, sz: int) -> bool {
        forall|subset: u16| #[trigger] self.sized(kind, region, subset, sz) ==> self.subset_quiet(kind, region, subset)
    }

    /// Whether a region that lacks `2 * sz` digits at least has subsets of
    /// that size that are quiet only.
    pub open spec fn subsets_quiet(&self, kind: int, region: int, sz: int) -> bool {
        popcount(self.missing(kind, region) as u128) >= 2 * sz && self.open_count(kind, region, 9) >= 2 * sz
            ==> self.all_quiet(kind, region, sz)
    }

    /// Whether no naked subset of `sz` cells, or of all but `sz` of the
    /// cells of a region that are not placed, leaves anything to take away.
    pub open spec fn no_subsets(&self, sz: int) -> bool {
        forall|kind: int, region: int|
            0 <= kind < 3 && 0 <= region < 9 ==> #[trigger] self.subsets_quiet(kind, region, sz)
    }

    /// Whether no naked subset step applies.
    pub open spec fn no_subset_steps(&self) -> bool {
        self.no_subsets(2) && self.no_subsets(3) && self.no_subsets(4)
    }

    /// The union holds the candidates of each cell of the subset, and digits
    /// from 1 to 9 only.
    proof fn lemma_union_covers(&self, kind: int, region: int, subset: u16, n: int)
        requires
            self.wf(),
            0 <= kind < 3,
            0 <= region < 9,
            0 <= n <= 9,
        ensures
            self.union_at(kind, region, subset, n) & !ALL_DIGITS_MASK == 0,
            forall|p: int|
                0 <= p < n && has_digit(subset, p) ==> #[trigger] self.cands(cell_of_region(kind, region, p))
                    & self.union_at(kind, region, subset, n) == self.cands(cell_of_region(kind, region, p)),
        decreases n,
    {
        if n > 0 {
            self.lemma_union_covers(kind, region, subset, n - 1);
            lemma_region_cells(kind, region, n - 1);
            let u = self.union_at(kind, region, subset, n - 1);
            let c = self.cands(cell_of_region(kind, region, n - 1));
            assert(c & !ALL_DIGITS_MASK == 0);
            lemma_union_ops(u, c, 0, 0);
            assert forall|p: int| 0 <= p < n && has_digit(subset, p) implies #[trigger] self.cands(
                cell_of_region(kind, region, p),
            ) & self.union_at(kind, region, subset, n) == self.cands(cell_of_region(kind, region, p)) by {
                if has_digit(subset, n - 1) {
                    lemma_union_ops(u, c, self.cands(cell_of_region(kind, region, p)), 0);
                }
            }
        } else {
            lemma_union_ops(0, 0, 0, 0);
        }
    }

    /// The union goes by the candidates of the cells of the subset alone.
    proof fn lemma_union_same(&self, other: &Self, kind: int, region: int, subset: u16, n: int)
        requires
            0 <= n <= 9,
            forall|p: int|
                0 <= p < n && has_digit(subset, p) ==> #[trigger] self.cands(cell_of_region(kind, region, p))
                    == other.cands(cell_of_region(kind, region, p)),
        ensures
            self.union_at(kind, region, subset, n) == other.union_at(kind, region, subset, n),
        decreases n,
    {
        if n > 0 {
            self.lemma_union_same(other, kind, region, subset, n - 1);
            if has_digit(subset, n - 1) {
                assert(self.cands(cell_of_region(kind, region, n - 1)) == other.cands(
                    cell_of_region(kind, region, n - 1),
                ));
            }
        }
    }

    /// The digits that a solution has at the cells of the subset are as
    /// many as the cells, each of them at one of the cells, and all within
    /// the union where the state admits the solution.
    proof fn lemma_digits_at(&self, s: Seq<u8>, kind: int, region: int, subset: u16, n: int)
        requires
            self.wf(),
            0 <= kind < 3,
            0 <= region < 9,
            0 <= n <= 9,
            is_solution(s),
            self.admits(s),
        ensures
            Self::digits_at(s, kind, region, subset, n) & self.union_at(kind, region, subset, n) == Self::digits_at(
                s,
                kind,
                region,
                subset,
                n,
            ),
            popcount(Self::digits_at(s, kind, region, subset, n) as u128) == Self::count_in(subset, n),
            forall|e: int|
                1 <= e <= 9 && has_digit(Self::digits_at(s, kind, region, subset, n), e) ==> exists|q: int|
                    0 <= q < n && has_digit(subset, q) && #[trigger] s[cell_of_region(kind, region, q)] == e,
            Self::digits_at(s, kind, region, subset, n) & !ALL_DIGITS_MASK == 0,
        decreases n,
    {
        if n > 0 {
            self.lemma_digits_at(s, kind, region, subset, n - 1);
            let before = Self::digits_at(s, kind, region, subset, n - 1);
            let after = Self::digits_at(s, kind, region, subset, n);
            let u = self.union_at(kind, region, subset, n - 1);
            let c = cell_of_region(kind, region, n - 1);
            lemma_region_cells(kind, region, n - 1);
            let v = s[c];
            assert(v != 0 && v <= 9);
            let bit = 1u16 << v;
            if has_digit(subset, n - 1) {
                assert(has_digit(self.cands(c), v as int));
                lemma_union_ops(u, self.cands(c), before, v as u16);
                lemma_single_digit(bit, v as u16);
                lemma_union_ops(before, bit, 0, 0);
                // the digit is new: the cells of the subset are peers
                if has_digit(before, v as int) {
                    let q = choose|q: int|
                        0 <= q < n - 1 && has_digit(subset, q) && #[trigger] s[cell_of_region(kind, region, q)] == v;
                    lemma_region_cells(kind, region, q);
                    lemma_region_peers(kind, cell_of_region(kind, region, q), c);
                    assert(false);
                }
                lemma_bit_as_u128(before, bit);
                lemma_popcount_add(before as u128, bit as u128);
                assert forall|e: int| 1 <= e <= 9 && has_digit(after, e) implies exists|q: int|
                    0 <= q < n && has_digit(subset, q) && #[trigger] s[cell_of_region(kind, region, q)] == e by {
                    lemma_digit_ops(before, bit, e as u16);
                    lemma_digit_masks(0, 0, 0, v as u16, e as u16);
                    if has_digit(before, e) {
                        let q = choose|q: int|
                            0 <= q < n - 1 && has_digit(subset, q) && #[trigger] s[cell_of_region(kind, region, q)] == e;
                        assert(s[cell_of_region(kind, region, q)] == e);
                    } else {
                        assert(s[cell_of_region(kind, region, n - 1)] == e);
                    }
                }
            } else {
                assert forall|e: int| 1 <= e <= 9 && has_digit(after, e) implies exists|q: int|
                    0 <= q < n && has_digit(subset, q) && #[trigger] s[cell_of_region(kind, region, q)] == e by {
                    let q = choose|q: int|
                        0 <= q < n - 1 && has_digit(subset, q) && #[trigger] s[cell_of_region(kind, region, q)] == e;
                    assert(s[cell_of_region(kind, region, q)] == e);
                }
            }
        } else {
            lemma_union_ops(0, 0, 0, 0);
            lemma_popcount_zero(0);
            assert forall|e: int| 1 <= e <= 9 implies !has_digit(0u16, e) by {
                lemma_digit_ops(0, 0, e as u16);
            }
        }
    }

    /// Where the cells of a subset can take as many digits as they are, no
    /// other cell of the region has one of those digits in a solution.
    proof fn lemma_naked_subset(&self, s: Seq<u8>, kind: int, region: int, subset: u16, p: int)
        requires
            self.wf(),
            0 <= kind < 3,
            0 <= region < 9,
            0 <= p < 9,
            !has_digit(subset, p),
            is_solution(s),
            self.admits(s),
            popcount(self.union_at(kind, region, subset, 9) as u128) == Self::count_in(subset, 9),
        ensures
            !has_digit(self.union_at(kind, region, subset, 9), s[cell_of_region(kind, region, p)] as int),
    {
        let union = self.union_at(kind, region, subset, 9);
        let digits = Self::digits_at(s, kind, region, subset, 9);
        let c = cell_of_region(kind, region, p);
        lemma_region_cells(kind, region, p);
        let e = s[c];
        assert(e != 0 && e <= 9);
        self.lemma_digits_at(s, kind, region, subset, 9);
        if has_digit(union, e as int) {
            let bit = 1u16 << e;
            if has_digit(digits, e as int) {
                let q = choose|q: int|
                    0 <= q < 9 && has_digit(subset, q) && #[trigger] s[cell_of_region(kind, region, q)] == e;
                lemma_region_cells(kind, region, q);
                lemma_region_peers(kind, cell_of_region(kind, region, q), c);
                assert(false);
            }
            lemma_single_digit(bit, e as u16);
            lemma_bit_as_u128(digits, bit);
            lemma_popcount_add(digits as u128, bit as u128);
            lemma_union_ops(digits, bit, union, e as u16);
            lemma_within_as_u128(digits | bit, union);
            lemma_popcount_within((digits | bit) as u128, union as u128);
        }
    }

    /// The places of a region whose cells are not placed, as a mask, and how
    /// many they are.
    fn unsolved_places(&self, kind: usize, region: usize) -> (r: (u16, usize))
        requires
            kind < 3,
            region < 9,
        ensures
            r.1 <= 9,
            forall|p: int|
                0 <= p < 9 ==> (#[trigger] has_digit(r.0, p) <==> !self.is_placed(
                    cell_of_region(kind as int, region as int, p),
                )),
            r.0 == self.open_places(kind as int, region as int, 9),
            r.1 == self.open_count(kind as int, region as int, 9),
    {
        let mut places: u16 = 0;
        let mut count: usize = 0;
        let mut k: usize = 0;
        proof {
            assert forall|p: int| 0 <= p < 16 implies !#[trigger] has_digit(places, p) by {
                lemma_digit_ops(0, 0, p as u16);
            }
        }
        while k < 9
            invariant
                k <= 9,
                kind < 3,
                region < 9,
                count <= k,
                forall|p: int|
                    0 <= p < k ==> (#[trigger] has_digit(places, p) <==> !self.is_placed(
                        cell_of_region(kind as int, region as int, p),
                    )),
                forall|p: int| k <= p < 16 ==> !#[trigger] has_digit(places, p),
                places == self.open_places(kind as int, region as int, k as int),
                count == self.open_count(kind as int, region as int, k as int),
            decreases 9 - k,
        {
            let idx = region_cell(kind, region, k);
            let ghost before = places;
            if !self.placed[idx] {
                places = places | (1u16 << (k as u16));
                count += 1;
                proof {
                    assert forall|p: int| 0 <= p < 16 implies (#[trigger] has_digit(places, p) <==> has_digit(before, p)
                        || p == k) by {
                        lemma_digit_ops(before, 1u16 << (k as u16), p as u16);
                        lemma_digit_masks(0, 0, 0, k as u16, p as u16);
                    }
                }
            }
            k += 1;
        }
        (places, count)
    }

    /// How many cells a subset of the places of a region has, and the
    /// digits that those cells can take.
    fn subset_union(&self, kind: usize, region: usize, subset: u16) -> (r: (usize, u16))
        requires
            kind < 3,
            region < 9,
        ensures
            r.0 == Self::count_in(subset, 9),
            r.1 == self.union_at(kind as int, region as int, subset, 9),
    {
        let mut count: usize = 0;
        let mut union: u16 = 0;
        let mut k: usize = 0;
        while k < 9
            invariant
                k <= 9,
                kind < 3,
                region < 9,
                count <= k,
                count == Self::count_in(subset, k as int),
                union == self.union_at(kind as int, region as int, subset, k as int),
            decreases 9 - k,
        {
            if subset & (1u16 << (k as u16)) != 0 {
                let idx = region_cell(kind, region, k);
                union = union | self.sukaku.0[idx];
                count += 1;
            }
            k += 1;
        }
        (count, union)
    }

    /// Takes the digits of `union` from the cells of a region that are not
    /// placed and can take another digit too, `union` being the digits of a
    /// naked subset.
    fn eliminate_subset(&mut self, kind: usize, region: usize, unsolved: u16, subset: u16, union: u16) -> (r: bool)
        requires
            old(self).wf(),
            kind < 3,
            region < 9,
            forall|p: int|
                0 <= p < 9 ==> (#[trigger] has_digit(unsolved, p) <==> !old(self).is_placed(
                    cell_of_region(kind as int, region as int, p),
                )),
            union == old(self).union_at(kind as int, region as int, subset, 9),
            popcount(union as u128) == Self::count_in(subset, 9),
        ensures
            final(self).same_placed(old(self)),
            r == (*final(self) != *old(self)),
            final(self).wf(),
            forall|s: Seq<u8>| is_solution(s) ==> (#[trigger] final(self).admits(s) <==> old(self).admits(s)),
            final(self).shrunk_from(old(self)),
            !r ==> *final(self) == *old(self),
            r ==> final(self).weight() < old(self).weight(),
            final(self).weight() <= old(self).weight(),
            forall|i: int| 0 <= i < 81 ==> final(self).is_placed(i) == old(self).is_placed(i),
            r ==> exists|k: int| 0 <= k < 9 && #[trigger] old(self).spills(kind as int, region as int, subset, k),
            !r ==> forall|k: int| 0 <= k < 9 ==> !#[trigger] old(self).spills(kind as int, region as int, subset, k),
            forall|k: int| 0 <= k < 9 ==> !#[trigger] final(self).spills(kind as int, region as int, subset, k),
            final(self).union_at(kind as int, region as int, subset, 9) == union,
            (*final(self), r) == old(self).subset_from(kind as int, region as int, unsolved, union, 0, false),
    {
        let mut made_progress = false;
        let mut k: usize = 0;
        proof {
            self.lemma_shrunk_self();
        }
        while k < 9
            invariant
                self.same_placed(old(self)),
                k <= 9,
                kind < 3,
                region < 9,
                self.wf(),
                forall|s: Seq<u8>| is_solution(s) ==> (#[trigger] self.admits(s) <==> old(self).admits(s)),
                self.shrunk_from(old(self)),
                !made_progress ==> *self == *old(self),
                made_progress ==> self.weight() < old(self).weight(),
                made_progress ==> exists|l: int|
                    0 <= l < 9 && #[trigger] old(self).spills(kind as int, region as int, subset, l),
                !made_progress ==> forall|l: int|
                    0 <= l < k ==> !#[trigger] self.spills(kind as int, region as int, subset, l),
                forall|l: int| 0 <= l < k ==> !#[trigger] self.spills(kind as int, region as int, subset, l),
                old(self).subset_from(kind as int, region as int, unsolved, union, 0, false) == self.subset_from(
                    kind as int,
                    region as int,
                    unsolved,
                    union,
                    k as int,
                    made_progress,
                ),
                forall|i: int| 0 <= i < 81 ==> self.is_placed(i) == old(self).is_placed(i),
                forall|p: int|
                    0 <= p < 9 ==> (#[trigger] has_digit(unsolved, p) <==> !old(self).is_placed(
                        cell_of_region(kind as int, region as int, p),
                    )),
                union == self.union_at(kind as int, region as int, subset, 9),
                popcount(union as u128) == Self::count_in(subset, 9),
            decreases 9 - k,
        {
            let ghost at_cell = *self;
            if unsolved & (1u16 << (k as u16)) != 0 {
                let idx = region_cell(kind, region, k);
                if self.sukaku.0[idx] & !union != 0 {
                    let ghost before = *self;
                    proof {
                        assert(has_digit(unsolved, k as int));
                        assert(!self.is_placed(idx as int));
                        before.lemma_union_covers(kind as int, region as int, subset, 9);
                        if has_digit(subset, k as int) {
                            lemma_union_ops(self.cands(idx as int), union, 0, 0);
                            assert(false);
                        }
                    }
                    let changed = self.eliminate(idx, union);
                    proof {
                        assert forall|s: Seq<u8>| is_solution(s) implies (#[trigger] self.admits(s) <==> old(
                            self,
                        ).admits(s)) by {
                            if before.admits(s) {
                                before.lemma_naked_subset(s, kind as int, region as int, subset, k as int);
                            }
                        }
                        self.lemma_shrunk_chain(&before, old(self));
                        assert forall|p: int| 0 <= p < 9 && has_digit(subset, p) implies #[trigger] self.cands(
                            cell_of_region(kind as int, region as int, p),
                        ) == before.cands(cell_of_region(kind as int, region as int, p)) by {
                            lemma_region_cells(kind as int, region as int, p);
                            lemma_region_cells(kind as int, region as int, k as int);
                        }
                        self.lemma_union_same(&before, kind as int, region as int, subset, 9);
                        if changed && !made_progress {
                            assert(old(self).spills(kind as int, region as int, subset, k as int));
                        }
                    }
                    made_progress = made_progress || changed;
                }
            } else {
                proof {
                    assert(!has_digit(unsolved, k as int));
                }
            }
            proof {
                assert forall|l: int| 0 <= l < k + 1 implies !#[trigger] self.spills(
                    kind as int,
                    region as int,
                    subset,
                    l,
                ) by {
                    lemma_region_cells(kind as int, region as int, l);
                    lemma_region_cells(kind as int, region as int, k as int);
                    let c = cell_of_region(kind as int, region as int, l);
                    if l < k {
                        assert(!at_cell.spills(kind as int, region as int, subset, l));
                        assert(self.cands(c) == at_cell.cands(c));
                    } else {
                        lemma_within_facts(at_cell.cands(c), union, 0, 0);
                    }
                }
            }
            k += 1;
        }
        made_progress
    }

    /// Find and apply the Naked Subsets of `sz` cells and, as their
    /// counterpart, of all but `sz` of the cells of a region that are not
    /// placed.
    fn do_subsets(&mut self, sz: usize) -> (r: bool)
        requires
            old(self).wf(),
            2 <= sz <= 4,
        ensures
            final(self).same_placed(old(self)),
            r == (*final(self) != *old(self)),
            final(self).wf(),
            forall|s: Seq<u8>| is_solution(s) ==> (#[trigger] final(self).admits(s) <==> old(self).admits(s)),
            final(self).shrunk_from(old(self)),
            !r ==> *final(self) == *old(self),
            r ==> final(self).weight() < old(self).weight(),
            final(self).weight() <= old(self).weight(),
            !r <==> old(self).no_subsets(sz as int),
            final(self).eased_all(old(self), sz as int),
            (*final(self), r) == old(self).subsets_at(sz as int, 0, 0, false),
    {
        let mut made_progress = false;
        let mut kind: usize = 0;
        proof {
            self.lemma_shrunk_self();
        }
        while kind < 3
            invariant
                self.same_placed(old(self)),
                kind <= 3,
                2 <= sz <= 4,
                self.wf(),
                forall|s: Seq<u8>| is_solution(s) ==> (#[trigger] self.admits(s) <==> old(self).admits(s)),
                self.shrunk_from(old(self)),
                !made_progress ==> *self == *old(self),
                made_progress ==> self.weight() < old(self).weight(),
                made_progress ==> !old(self).no_subsets(sz as int),
                !made_progress ==> forall|k2: int, r2: int|
                    0 <= k2 < kind && 0 <= r2 < 9 ==> #[trigger] self.subsets_quiet(k2, r2, sz as int),
                forall|k2: int, r2: int|
                    0 <= k2 < kind && 0 <= r2 < 9 && popcount(old(self).missing(k2, r2) as u128) >= 2 * sz
                        && old(self).open_count(k2, r2, 9) >= 2 * sz
                        ==> #[trigger] self.eased(old(self), k2, r2, sz as int),
                old(self).subsets_at(sz as int, 0, 0, false) == self.subsets_at(sz as int, kind as int, 0, made_progress),
            decreases 3 - kind,
        {
            let mut region: usize = 0;
            while region < 9
                invariant
                    self.same_placed(old(self)),
                    region <= 9,
                    kind < 3,
                    2 <= sz <= 4,
                    self.wf(),
                    forall|s: Seq<u8>| is_solution(s) ==> (#[trigger] self.admits(s) <==> old(self).admits(s)),
                    self.shrunk_from(old(self)),
                    !made_progress ==> *self == *old(self),
                    made_progress ==> self.weight() < old(self).weight(),
                    made_progress ==> !old(self).no_subsets(sz as int),
                    !made_progress ==> forall|k2: int, r2: int|
                        0 <= k2 < kind && 0 <= r2 < 9 ==> #[trigger] self.subsets_quiet(k2, r2, sz as int),
                    !made_progress ==> forall|r2: int|
                        0 <= r2 < region ==> #[trigger] self.subsets_quiet(kind as int, r2, sz as int),
                    forall|k2: int, r2: int|
                        0 <= k2 < 3 && 0 <= r2 < 9 && (k2 < kind || (k2 == kind && r2 < region)) && popcount(
                            old(self).missing(k2, r2) as u128,
                        ) >= 2 * sz && old(self).open_count(k2, r2, 9) >= 2 * sz ==> #[trigger] self.eased(
                            old(self),
                            k2,
                            r2,
                            sz as int,
                        ),
                    old(self).subsets_at(sz as int, 0, 0, false) == self.subsets_at(
                        sz as int,
                        kind as int,
                        region as int,
                        made_progress,
                    ),
                decreases 9 - region,
            {
                let missing = self.get_missing(kind, region);
                let (unsolved, n) = self.unsolved_places(kind, region);
                let ghost at_region = *self;
                proof {
                    self.lemma_shrunk_self();
                    self.lemma_open_same(old(self), kind as int, region as int, 9);
                }
                if missing.count_ones() as usize >= 2 * sz && n >= 2 * sz {
                    let changed = self.subsets_of_region(kind, region, unsolved, n, sz);
                    proof {
                        self.lemma_eased_since(&at_region, old(self), kind as int, region as int, sz as int);
                        self.lemma_shrunk_chain(&at_region, old(self));
                        if changed && !made_progress {
                            assert(!at_region.subsets_quiet(kind as int, region as int, sz as int));
                        }
                    }
                    made_progress = made_progress || changed;
                }
                proof {
                    if !made_progress {
                        assert(self.subsets_quiet(kind as int, region as int, sz as int));
                    }
                    assert forall|k2: int, r2: int|
                        0 <= k2 < 3 && 0 <= r2 < 9 && (k2 < kind || (k2 == kind && r2 < region + 1)) && popcount(
                            old(self).missing(k2, r2) as u128,
                        ) >= 2 * sz && old(self).open_count(k2, r2, 9) >= 2 * sz implies #[trigger] self.eased(
                        old(self),
                        k2,
                        r2,
                        sz as int,
                    ) by {
                        if k2 < kind || r2 < region {
                            assert(at_region.eased(old(self), k2, r2, sz as int));
                            self.lemma_eased_kept(&at_region, old(self), k2, r2, sz as int);
                        }
                    }
                }
                region += 1;
            }
            kind += 1;
        }
        made_progress
    }

    /// Goes through the subsets of the cells of a region that are not
    /// placed, and applies each naked subset of `sz` or `n - sz` cells.
    fn subsets_of_region(&mut self, kind: usize, region: usize, unsolved: u16, n: usize, sz: usize) -> (r: bool)
        requires
            old(self).wf(),
            kind < 3,
            region < 9,
            2 <= sz <= 4,
            2 * sz <= n <= 9,
            forall|p: int|
                0 <= p < 9 ==> (#[trigger] has_digit(unsolved, p) <==> !old(self).is_placed(
                    cell_of_region(kind as int, region as int, p),
                )),
            unsolved == old(self).open_places(kind as int, region as int, 9),
            n == old(self).open_count(kind as int, region as int, 9),
        ensures
            final(self).same_placed(old(self)),
            r == (*final(self) != *old(self)),
            final(self).wf(),
            forall|s: Seq<u8>| is_solution(s) ==> (#[trigger] final(self).admits(s) <==> old(self).admits(s)),
            final(self).shrunk_from(old(self)),
            !r ==> *final(self) == *old(self),
            r ==> final(self).weight() < old(self).weight(),
            final(self).weight() <= old(self).weight(),
            !r <==> old(self).all_quiet(kind as int, region as int, sz as int),
            final(self).eased(old(self), kind as int, region as int, sz as int),
            (*final(self), r) == old(self).region_subsets(
                kind as int,
                region as int,
                unsolved,
                n as int,
                sz as int,
                unsolved as int,
                false,
            ),
    {
        let mut made_progress = false;
        let mut subsets = SubsetIter::<u16>::from(unsolved);
        let mut next = subsets.next();
        proof {
            self.lemma_shrunk_self();
            lemma_subset_below(0, 0, unsolved);
            assert forall|subset: u16| #[trigger]
                self.sized(kind as int, region as int, subset, sz as int) && subset > unsolved implies self.subset_quiet(
                kind as int,
                region as int,
                subset,
            ) by {
                lemma_subset_below(subset, 0, unsolved);
            }
        }
        while next.is_some()
            invariant
                self.same_placed(old(self)),
                kind < 3,
                region < 9,
                2 <= sz <= 4,
                2 * sz <= n <= 9,
                subsets.wf(),
                self.wf(),
                forall|s: Seq<u8>| is_solution(s) ==> (#[trigger] self.admits(s) <==> old(self).admits(s)),
                self.shrunk_from(old(self)),
                !made_progress ==> *self == *old(self),
                made_progress ==> self.weight() < old(self).weight(),
                forall|i: int| 0 <= i < 81 ==> self.is_placed(i) == old(self).is_placed(i),
                forall|p: int|
                    0 <= p < 9 ==> (#[trigger] has_digit(unsolved, p) <==> !old(self).is_placed(
                        cell_of_region(kind as int, region as int, p),
                    )),
                unsolved == old(self).open_places(kind as int, region as int, 9),
                n == old(self).open_count(kind as int, region as int, 9),
                subsets.whole() == unsolved,
                match next {
                    None => subsets.upcoming() is None,
                    Some(b) => b@ & unsolved == b@ && subsets.upcoming() == (if b@ == 0 {
                        None
                    } else {
                        Some(((b@ - 1) as u16) & unsolved)
                    }),
                },
                made_progress ==> !old(self).all_quiet(kind as int, region as int, sz as int),
                old(self).region_subsets(kind as int, region as int, unsolved, n as int, sz as int, unsolved as int, false)
                    == self.region_subsets(
                    kind as int,
                    region as int,
                    unsolved,
                    n as int,
                    sz as int,
                    match next {
                        Some(b) => b@ as int,
                        None => -1,
                    },
                    made_progress,
                ),
                !made_progress ==> forall|subset: u16| #[trigger]
                    self.sized(kind as int, region as int, subset, sz as int) && (next matches Some(b) ==> subset > b@)
                        ==> self.subset_quiet(kind as int, region as int, subset),
                forall|subset: u16| #[trigger]
                    old(self).sized(kind as int, region as int, subset, sz as int) && (next matches Some(b) ==> subset
                        > b@) && self.union_at(kind as int, region as int, subset, 9) == old(self).union_at(
                        kind as int,
                        region as int,
                        subset,
                        9,
                    ) ==> self.subset_quiet(kind as int, region as int, subset),
            decreases (if next.is_some() { 1int } else { 0int }) + subsets.remaining().len(),
        {
            let subset: u16 = next.unwrap().into_inner();
            let (count, union) = self.subset_union(kind, region, subset);
            let ghost at_subset = *self;
            let ghost progress_before = made_progress;
            if (count == sz || count == n - sz) && union.count_ones() as usize == count {
                let ghost before = *self;
                let changed = self.eliminate_subset(kind, region, unsolved, subset, union);
                proof {
                    self.lemma_shrunk_chain(&before, old(self));
                    if changed && !made_progress {
                        assert(before.sized(kind as int, region as int, subset, sz as int));
                        assert(!before.subset_quiet(kind as int, region as int, subset));
                    }
                }
                made_progress = made_progress || changed;
            }
            proof {
                if !made_progress {
                    assert((at_subset.sized(kind as int, region as int, subset, sz as int)) ==> at_subset.subset_quiet(
                        kind as int,
                        region as int,
                        subset,
                    ));
                }
            }
            let ghost taken = next;
            next = subsets.next();
            proof {
                if at_subset != *self {
                } else {
                    self.lemma_shrunk_self();
                }
                assert(self.shrunk_from(&at_subset));
                assert forall|t: u16| #[trigger]
                    old(self).sized(kind as int, region as int, t, sz as int) && (next matches Some(b) ==> t > b@)
                        && self.union_at(kind as int, region as int, t, 9) == old(self).union_at(
                        kind as int,
                        region as int,
                        t,
                        9,
                    ) implies self.subset_quiet(kind as int, region as int, t) by {
                    lemma_subset_below(t, subset, unsolved);
                    self.lemma_union_shrunk(&at_subset, kind as int, region as int, t, 9);
                    at_subset.lemma_union_shrunk(old(self), kind as int, region as int, t, 9);
                    lemma_within_facts(
                        self.union_at(kind as int, region as int, t, 9),
                        at_subset.union_at(kind as int, region as int, t, 9),
                        old(self).union_at(kind as int, region as int, t, 9),
                        0,
                    );
                    if t > subset {
                        assert(at_subset.subset_quiet(kind as int, region as int, t));
                        self.lemma_quiet_kept(&at_subset, kind as int, region as int, t);
                    } else {
                        assert(t == subset);
                    }
                }
                lemma_subset_below(0, subset, unsolved);
                if !made_progress {
                    assert forall|t: u16| #[trigger]
                        self.sized(kind as int, region as int, t, sz as int) && (next matches Some(b) ==> t > b@)
                        implies self.subset_quiet(kind as int, region as int, t) by {
                        lemma_subset_below(t, subset, unsolved);
                    }
                }
            }
        }
        made_progress
    }

    /// The weight is not negative.
    proof fn lemma_weight(&self)
        requires
            self.wf(),
        ensures
            self.weight() >= 0,
            0 <= self.count() <= 81,
    {
        lemma_count_true_full(Seq::new(81, |i: int| self.is_placed(i)), 81);
        let masks = Seq::new(81, |i: int| self.cands(i));
        lemma_sum_masks_within(masks, masks, 81);
    }

    /// The weight is not negative, for use outside this file.
    pub proof fn lemma_weight_bounds(&self)
        requires
            self.wf(),
        ensures
            self.weight() >= 0,
            0 <= self.count() <= 81,
    {
        self.lemma_weight();
    }

    /// Once every cell is placed, the state admits no solution but the
    /// grid of the placed digits.
    pub proof fn lemma_solved_only(&self, t: Seq<u8>)
        requires
            self.wf(),
            self.count() == 81,
            is_solution(t),
            self.admits(t),
        ensures
            t == self.grid(),
    {
        self.lemma_solved();
        let g = self.grid();
        lemma_count_true_full(Seq::new(81, |i: int| self.is_placed(i)), 81);
        assert forall|i: int| 0 <= i < 81 implies t[i] == g[i] by {
            assert(Seq::new(81, |i: int| self.is_placed(i))[i]);
            assert(self.is_placed(i));
            assert(has_digit(self.cands(i), t[i] as int));
            let e = single_digit(self.cands(i));
            lemma_single_digit(self.cands(i), e as u16);
            lemma_digit_masks(0, 0, 0, e as u16, t[i] as u16);
        }
        assert(t =~= g);
    }

    /// What a solver that was made for a grid admits once digits were taken
    /// from its cells: the completions of the grid that have none of those
    /// digits at their cells.
    pub proof fn lemma_admits_after_elims(
        &self,
        fresh: &Self,
        grid: Seq<u8>,
        elims: Seq<((usize, usize), u8)>,
        t: Seq<u8>,
    )
        requires
            grid.len() == 81,
            is_solution(t),
            forall|i: int|
                0 <= i < 81 ==> #[trigger] fresh.cands(i) == (if grid[i] == 0 {
                    ALL_DIGITS_MASK
                } else if grid[i] <= 9 {
                    1u16 << grid[i]
                } else {
                    0u16
                }),
            forall|i: int, d: int|
                0 <= i < 81 && 0 <= d < 16 ==> (#[trigger] has_digit(self.cands(i), d) <==> has_digit(fresh.cands(i), d)
                    && !exists|j: int|
                    0 <= j < elims.len() && 9 * (#[trigger] elims[j]).0.0 + elims[j].0.1 == i && elims[j].1 == d),
            forall|j: int| 0 <= j < elims.len() ==> (#[trigger] elims[j]).0.0 < 9 && elims[j].0.1 < 9,
        ensures
            self.admits(t) <==> (forall|i: int| 0 <= i < 81 && #[trigger] grid[i] != 0 ==> t[i] == grid[i]) && (forall|
                j: int,
            | 0 <= j < elims.len() ==> t[9 * (#[trigger] elims[j]).0.0 + elims[j].0.1] != elims[j].1),
    {
        let agrees = forall|i: int| 0 <= i < 81 && #[trigger] grid[i] != 0 ==> t[i] == grid[i];
        let avoids = forall|j: int| 0 <= j < elims.len() ==> t[9 * (#[trigger] elims[j]).0.0 + elims[j].0.1] != elims[j].1;
        assert forall|i: int| 0 <= i < 81 implies (has_digit(fresh.cands(i), t[i] as int) <==> (grid[i] != 0 ==> t[i]
            == grid[i])) by {
            assert(t[i] != 0 && t[i] <= 9);
            if grid[i] == 0 {
                lemma_digit_masks(0, 0, 0, t[i] as u16, 0);
            } else if grid[i] <= 9 {
                lemma_digit_masks(0, 0, 0, grid[i] as u16, t[i] as u16);
            } else {
                lemma_single_digit(0, t[i] as u16);
            }
        }
        if self.admits(t) {
            assert forall|i: int| 0 <= i < 81 && #[trigger] grid[i] != 0 implies t[i] == grid[i] by {
                assert(has_digit(self.cands(i), t[i] as int));
            }
            assert forall|j: int| 0 <= j < elims.len() implies t[9 * (#[trigger] elims[j]).0.0 + elims[j].0.1]
                != elims[j].1 by {
                let i = 9 * elims[j].0.0 + elims[j].0.1;
                assert(has_digit(self.cands(i), t[i] as int));
            }
        }
        if agrees && avoids {
            assert forall|i: int| 0 <= i < 81 implies #[trigger] has_digit(self.cands(i), t[i] as int) by {
                assert(t[i] != 0 && t[i] <= 9);
                if exists|j: int| 0 <= j < elims.len() && 9 * (#[trigger] elims[j]).0.0 + elims[j].0.1 == i && elims[j].1
                    == t[i] {
                    let j = choose|j: int|
                        0 <= j < elims.len() && 9 * (#[trigger] elims[j]).0.0 + elims[j].0.1 == i && elims[j].1 == t[i];
                    assert(t[9 * elims[j].0.0 + elims[j].0.1] != elims[j].1);
                }
            }
        }
    }

    /// Whether this is the state in which the solver starts on a grid:
    /// nothing is placed, a cell with a clue has the clue as its candidate,
    /// and any other cell every digit.
    pub open spec fn starts_on(&self, grid: Seq<u8>) -> bool {
        &&& self.wf()
        &&& self.count() == 0
        &&& forall|i: int| 0 <= i < 81 ==> !self.is_placed(i)
        &&& forall|i: int|
            0 <= i < 81 ==> #[trigger] self.cands(i) == (if grid[i] == 0 {
                ALL_DIGITS_MASK
            } else if grid[i] <= 9 {
                1u16 << grid[i]
            } else {
                0u16
            })
    }

    /// Whether this is the state `before`, in which nothing is placed, with
    /// the digits of `elims` taken from their cells.
    pub open spec fn cut_from(&self, before: &Self, elims: Seq<((usize, usize), u8)>) -> bool {
        &&& self.wf()
        &&& self.count() == 0
        &&& forall|i: int, d: int|
            0 <= i < 81 && 0 <= d < 16 ==> (#[trigger] has_digit(self.cands(i), d) <==> has_digit(before.cands(i), d)
                && !exists|j: int|
                0 <= j < elims.len() && 9 * (#[trigger] elims[j]).0.0 + elims[j].0.1 == i && elims[j].1 == d)
    }

    /// Whether every cell that had a single candidate in `before` is
    /// placed.
    pub open spec fn naked_made(&self, before: &Self) -> bool {
        forall|i: int|
            0 <= i < 81 && !before.is_placed(i) && popcount(before.cands(i) as u128) == 1 ==> #[trigger] self.is_placed(i)
    }

    /// Whether the pointing and claiming steps that were there to find
    /// in `before` are made, and no cell is placed: see
    /// [`Self::pointed_out`].
    pub open spec fn pointing_made(&self, before: &Self) -> bool {
        &&& self.same_placed(before)
        &&& self.pointed_out(before, 0, 2)
        &&& self.pointed_out(before, 1, 2)
        &&& self.pointed_out(before, 2, 0)
        &&& self.pointed_out(before, 2, 1)
    }

    /// Whether the naked subsets of two, three and four cells, and of all
    /// but as many, that were there to find in `before` have their digits
    /// taken from the other cells, and no cell is placed: see
    /// [`Self::eased`].
    pub open spec fn subsets_made(&self, before: &Self) -> bool {
        &&& self.same_placed(before)
        &&& self.eased_all(before, 2)
        &&& self.eased_all(before, 3)
        &&& self.eased_all(before, 4)
    }

    /// Whether this state is what the first of the basic rules that
    /// applies to `before` can make of it: naked singles before hidden
    /// singles, those before pointing and claiming, and those before naked
    /// subsets.
    pub open spec fn by_rule(&self, before: &Self) -> bool {
        if !before.no_naked_single() {
            self.naked_made(before)
        } else if !before.no_hidden_single() {
            self.singled_out(before)
        } else if !before.no_intersections() {
            self.pointing_made(before)
        } else {
            self.subsets_made(before)
        }
    }

    /// The state in which the solver starts on a grid: see
    /// [`Self::starts_on`].
    pub closed spec fn starting(grid: Seq<u8>) -> Self {
        choose|state: Self| state.starts_on(grid)
    }

    /// This state, in which nothing is placed, with the digits of `elims`
    /// taken from their cells: see [`Self::cut_from`].
    pub closed spec fn cut(&self, elims: Seq<((usize, usize), u8)>) -> Self {
        choose|state: Self| state.cut_from(self, elims)
    }

    /// Two masks with the same digits are one mask.
    proof fn lemma_same_mask(a: u16, b: u16)
        requires
            forall|d: int| 0 <= d < 16 ==> has_digit(a, d) == has_digit(b, d),
        ensures
            a == b,
    {
        if a != b {
            let t = u16_trailing_zeros(a ^ b);
            lemma_differ(a, b, t as u16);
            axiom_u16_trailing_zeros(a ^ b);
            assert(has_digit(a, t as int) == has_digit(b, t as int));
            assert(false);
        }
    }

    /// In a state in which the count is 0 no cell is placed.
    proof fn lemma_none_placed(&self)
        requires
            self.wf(),
            self.count() == 0,
        ensures
            forall|i: int| 0 <= i < 81 ==> !self.is_placed(i),
    {
        lemma_count_none_placed(Seq::new(81, |i: int| self.is_placed(i)), 81);
        assert forall|i: int| 0 <= i < 81 implies !self.is_placed(i) by {
            assert(!Seq::new(81, |i: int| self.is_placed(i))[i]);
        }
    }

    /// The state in which the solver starts on a grid is one state, and so
    /// is a state with digits taken from its cells.
    proof fn lemma_start(&self, grid: Seq<u8>, before: &Self, elims: Seq<((usize, usize), u8)>)
        ensures
            self.starts_on(grid) ==> *self == Self::starting(grid),
            self.cut_from(before, elims) ==> *self == before.cut(elims),
    {
        if self.starts_on(grid) {
            let t = Self::starting(grid);
            assert(t.starts_on(grid));
            assert forall|i: int| 0 <= i < 81 implies #[trigger] self.cands(i) == t.cands(i) && self.is_placed(i)
                == t.is_placed(i) by {}
            self.lemma_same_state(&t);
        }
        if self.cut_from(before, elims) {
            let t = before.cut(elims);
            assert(t.cut_from(before, elims));
            self.lemma_none_placed();
            t.lemma_none_placed();
            assert forall|i: int| 0 <= i < 81 implies #[trigger] self.cands(i) == t.cands(i) && self.is_placed(i)
                == t.is_placed(i) by {
                assert forall|d: int| 0 <= d < 16 implies has_digit(self.cands(i), d) == has_digit(t.cands(i), d) by {
                    assert(has_digit(self.cands(i), d) <==> has_digit(before.cands(i), d) && !exists|j: int|
                        0 <= j < elims.len() && 9 * (#[trigger] elims[j]).0.0 + elims[j].0.1 == i && elims[j].1 == d);
                    assert(has_digit(t.cands(i), d) <==> has_digit(before.cands(i), d) && !exists|j: int|
                        0 <= j < elims.len() && 9 * (#[trigger] elims[j]).0.0 + elims[j].0.1 == i && elims[j].1 == d);
                }
                Self::lemma_same_mask(self.cands(i), t.cands(i));
            }
            self.lemma_same_state(&t);
        }
    }

    /// Initialise a solver with the clues of a grid that comes with its
    /// region masks.
    pub fn for_region_masked_sudoku(sudoku: &RegionMaskedSudoku) -> (r: Self)
        ensures
            r == Self::starting(sudoku.grid()),
            r.starts_on(sudoku.grid()),
            r.wf(),
            r.count() == 0,
            forall|i: int| 0 <= i < 81 ==> !r.is_placed(i),
            forall|i: int|
                0 <= i < 81 ==> #[trigger] r.cands(i) == (if sudoku.grid()[i] == 0 {
                    ALL_DIGITS_MASK
                } else if sudoku.grid()[i] <= 9 {
                    1u16 << sudoku.grid()[i]
                } else {
                    0u16
                }),
    {
        Self::for_sudoku(sudoku.sudoku())
    }

    /// Takes from the cell at row `elims[j].0.0` and column `elims[j].0.1`
    /// the digit `elims[j].1`, for each entry of `elims`.
    pub fn eliminate_candidates(&mut self, elims: &Vec<((usize, usize), u8)>)
        requires
            old(self).wf(),
            old(self).count() == 0,
            forall|j: int| 0 <= j < elims@.len() ==> elims@[j].0.0 < 9 && elims@[j].0.1 < 9 && elims@[j].1 < 16,
        ensures
            *final(self) == old(self).cut(elims@),
            final(self).cut_from(old(self), elims@),
            final(self).wf(),
            final(self).count() == 0,
            final(self).shrunk_from(old(self)),
            forall|i: int, d: int|
                0 <= i < 81 && 0 <= d < 16 ==> (#[trigger] has_digit(final(self).cands(i), d) <==> has_digit(
                    old(self).cands(i),
                    d,
                ) && !exists|j: int|
                    0 <= j < elims@.len() && 9 * (#[trigger] elims@[j]).0.0 + elims@[j].0.1 == i && elims@[j].1 == d),
    {
        let mut j: usize = 0;
        proof {
            self.lemma_shrunk_self();
            lemma_count_none_placed(Seq::new(81, |i: int| self.is_placed(i)), 81);
            assert forall|i: int| 0 <= i < 81 implies !self.is_placed(i) by {
                assert(!Seq::new(81, |i: int| self.is_placed(i))[i]);
            }
        }
        while j < elims.len()
            invariant
                j <= elims@.len(),
                self.wf(),
                self.count() == 0,
                self.shrunk_from(old(self)),
                forall|i: int| 0 <= i < 81 ==> !self.is_placed(i),
                forall|l: int| 0 <= l < elims@.len() ==> elims@[l].0.0 < 9 && elims@[l].0.1 < 9 && elims@[l].1 < 16,
                forall|i: int, d: int|
                    0 <= i < 81 && 0 <= d < 16 ==> (#[trigger] has_digit(self.cands(i), d) <==> has_digit(
                        old(self).cands(i),
                        d,
                    ) && !exists|l: int|
                        0 <= l < j && 9 * (#[trigger] elims@[l]).0.0 + elims@[l].0.1 == i && elims@[l].1 == d),
            decreases elims@.len() - j,
        {
            let ((row, col), digit) = elims[j];
            let ghost before = *self;
            let idx = row * 9 + col;
            proof {
                lemma_count_none_placed(Seq::new(81, |i: int| self.is_placed(i)), 81);
            }
            self.eliminate(idx, 1u16 << digit);
            proof {
                self.lemma_shrunk_chain(&before, old(self));
                assert forall|i: int, d: int| 0 <= i < 81 && 0 <= d < 16 implies (#[trigger] has_digit(self.cands(i), d)
                    <==> has_digit(old(self).cands(i), d) && !exists|l: int|
                    0 <= l < j + 1 && 9 * (#[trigger] elims@[l]).0.0 + elims@[l].0.1 == i && elims@[l].1 == d) by {
                    lemma_eliminate(before.cands(i), 1u16 << digit, d as u16);
                    lemma_digit_masks(0, 0, 0, digit as u16, d as u16);
                    let hit_before = exists|l: int|
                        0 <= l < j && 9 * (#[trigger] elims@[l]).0.0 + elims@[l].0.1 == i && elims@[l].1 == d;
                    assert(has_digit(before.cands(i), d) <==> has_digit(old(self).cands(i), d) && !hit_before);
                    if i == idx && d == digit {
                        assert(9 * elims@[j as int].0.0 + elims@[j as int].0.1 == i && elims@[j as int].1 == d);
                    }
                    if hit_before {
                        let l = choose|l: int|
                            0 <= l < j && 9 * (#[trigger] elims@[l]).0.0 + elims@[l].0.1 == i && elims@[l].1 == d;
                        assert(0 <= l < j + 1 && 9 * elims@[l].0.0 + elims@[l].0.1 == i && elims@[l].1 == d);
                    }
                }
            }
            j += 1;
        }
        proof {
            self.lemma_start(Seq::empty(), old(self), elims@);
        }
    }

    /// What one step of the basic rules makes of this state, and what it
    /// returns: the pass for naked singles; where that leaves the state as
    /// it is, the pass for hidden singles; where that does too, the pointing
    /// and claiming steps; and where those do, the naked subsets.
    pub open spec fn stepped(&self) -> (Self, Option<bool>) {
        let (one, first) = self.naked_from(0, false);
        if first != Some(false) {
            (one, first)
        } else {
            let (two, second) = one.hidden_kinds(0, false);
            if second != Some(false) {
                (two, second)
            } else {
                let (three, third) = two.point_all();
                if third {
                    (three, Some(true))
                } else {
                    let (four, fourth) = three.subsets_all();
                    (four, Some(fourth))
                }
            }
        }
    }

    /// What the basic rules make of this state in `fuel` steps at most:
    /// they are applied step by step until a step leaves the state as it is
    /// or is given up.
    pub open spec fn settled_in(&self, fuel: nat) -> Self
        decreases fuel,
    {
        if fuel == 0 {
            *self
        } else if self.stepped().1 == Some(true) {
            self.stepped().0.settled_in((fuel - 1) as nat)
        } else {
            self.stepped().0
        }
    }

    /// What the basic rules make of this state: each step takes a
    /// candidate away or places a digit, so that the weight of the state
    /// bounds the number of steps.
    pub open spec fn settled(&self) -> Self {
        self.settled_in((self.weight() + 1) as nat)
    }

    /// Whether no basic deduction applies: there is no naked and no hidden
    /// single, no pointing or claiming step and no naked subset that takes
    /// a candidate away, and no cell or region that shows that the state
    /// admits no solution.
    pub open spec fn quiet(&self) -> bool {
        self.no_naked_single() && self.no_hidden_single() && self.no_intersections() && self.no_subset_steps()
    }

    /// Carry out all basic deductions of the simplest kind for
    /// which any deductions exist. `Some(true)` where the state has changed,
    /// `Some(false)` where no rule applies, `None` where the state admits
    /// no solution.
    pub fn step_basics(&mut self) -> (r: Option<bool>)
        requires
            old(self).wf(),
        ensures
            (*final(self), r) == old(self).stepped(),
            final(self).wf(),
            r == Some(false) <==> old(self).quiet(),
            r == Some(true) ==> final(self).by_rule(old(self)),
            r matches Some(b) ==> b == (*final(self) != *old(self)),
            r is None ==> final(self).contradictory(),
            r is None ==> forall|s: Seq<u8>| is_solution(s) ==> !old(self).admits(s),
            forall|s: Seq<u8>| is_solution(s) ==> (#[trigger] final(self).admits(s) <==> old(self).admits(s)),
            final(self).shrunk_from(old(self)),
            r == Some(false) ==> *final(self) == *old(self),
            r == Some(true) ==> final(self).weight() < old(self).weight(),
    {
        match self.do_naked_singles() {
            None => {
                return None;
            },
            Some(progress) => {
                if progress {
                    return Some(true);
                }
            },
        }
        match self.do_hidden_singles() {
            None => {
                return None;
            },
            Some(progress) => {
                if progress {
                    return Some(true);
                }
            },
        }
        if self.do_intersections() {
            return Some(true);
        }
        Some(self.do_all_subsets())
    }

    /// Carry out all basic deductions until no more remain. A state to
    /// which no deduction applies is left as it is; and the state that is
    /// left is such a state, unless the state admitted no solution: so
    /// solving it once more changes nothing.
    pub fn solve_basics(&mut self)
        requires
            old(self).wf(),
        ensures
            final(self).wf(),
            forall|s: Seq<u8>| is_solution(s) ==> (#[trigger] final(self).admits(s) <==> old(self).admits(s)),
            final(self).shrunk_from(old(self)),
            old(self).quiet() ==> *final(self) == *old(self),
            final(self).quiet() || forall|s: Seq<u8>| is_solution(s) ==> !old(self).admits(s),
            final(self).quiet() || final(self).contradictory(),
            *final(self) == old(self).settled(),
    {
        proof {
            self.lemma_shrunk_self();
            self.lemma_weight();
        }
        let ghost mut fuel: nat = (self.weight() + 1) as nat;
        loop
            invariant
                fuel >= self.weight() + 1,
                old(self).settled() == self.settled_in(fuel),
                self.wf(),
                forall|s: Seq<u8>| is_solution(s) ==> (#[trigger] self.admits(s) <==> old(self).admits(s)),
                self.shrunk_from(old(self)),
                old(self).quiet() ==> *self == *old(self),
            decreases self.weight(),
        {
            let ghost before = *self;
            proof {
                self.lemma_weight();
            }
            let step = self.step_basics();
            proof {
                self.lemma_shrunk_chain(&before, old(self));
                self.lemma_weight();
                if step == Some(true) {
                    fuel = (fuel - 1) as nat;
                }
            }
            match step {
                Some(true) => {},
                _ => {
                    return ;
                },
            }
        }
    }
}

proof fn lemma_count_none_placed(marks: Seq<bool>, n: int)
    requires
        0 <= n <= marks.len(),
        count_true(marks, n) == 0,
    ensures
        forall|i: int| 0 <= i < n ==> !marks[i],
    decreases n,
{
    if n > 0 {
        lemma_count_true_full(marks, n - 1);
        lemma_count_none_placed(marks, n - 1);
    }
}

/// `Itertools::all_equal_value` of itertools, on a list of numbers: the
/// number that all of them are, if the list is not empty and they are all
/// the same.
#[verifier::external_body]
fn all_equal_value(values: &Vec<usize>) -> (r: Option<usize>)
    ensures
        r matches Some(x) ==> values@.len() > 0 && forall|i: int| 0 <= i < values@.len() ==> values@[i] == x,
        r is None ==> values@.len() == 0 || exists|i: int, j: int|
            0 <= i < values@.len() && 0 <= j < values@.len() && values@[i] != values@[j],
{
    values.iter().copied().all_equal_value().ok()
}

/// How the digits of a union relate to the digits of its parts.
proof fn lemma_union_ops(u: u16, c: u16, x: u16, d: u16)
    ensures
        0u16 & !0b11_1111_1110u16 == 0,
        u & !0b11_1111_1110u16 == 0 && c & !0b11_1111_1110u16 == 0 ==> (u | c) & !0b11_1111_1110u16 == 0,
        c & (u | c) == c,
        x & u == x ==> x & (u | c) == x,
        x & u == x && d < 16 && c & (1u16 << d) != 0 ==> (x | (1u16 << d)) & (u | c) == x | (1u16 << d),
        u & c == u ==> u & !c == 0,
        u & x == u && d < 16 && x & (1u16 << d) != 0 ==> (u | (1u16 << d)) & x == u | (1u16 << d),
        0u16 & 0u16 == 0,
{
    lemma_mask_facts(u, c, x, d);
}

/// A digit that a mask lacks, seen as wider numbers.
proof fn lemma_bit_as_u128(a: u16, bit: u16)
    ensures
        bit != 0 && bit & ((bit - 1) as u16) == 0 ==> (bit as u128) != 0 && (bit as u128) & (((bit as u128) - 1) as u128) == 0,
        a & bit == 0 ==> (a as u128) & (bit as u128) == 0,
        ((a | bit) as u128) == (a as u128) | (bit as u128),
{
    lemma_wider(a, bit);
}

/// A mask within another, seen as wider numbers.
proof fn lemma_within_as_u128(a: u16, b: u16)
    requires
        a & b == a,
    ensures
        (a as u128) & (b as u128) == (a as u128),
{
    lemma_wider(a, b);
}

/// The lowest digit of a mask of digits is one digit, and what is left
/// without it is a mask of digits.
proof fn lemma_lowest_digit(x: u16)
    requires
        x & !0b11_1111_1110u16 == 0,
    ensures
        x != 0
            ==> (x ^ (x & ((x - 1) as u16))) == 0b10
                || (x ^ (x & ((x - 1) as u16))) == 0b100
                || (x ^ (x & ((x - 1) as u16))) == 0b1000
                || (x ^ (x & ((x - 1) as u16))) == 0b1_0000
                || (x ^ (x & ((x - 1) as u16))) == 0b10_0000
                || (x ^ (x & ((x - 1) as u16))) == 0b100_0000
                || (x ^ (x & ((x - 1) as u16))) == 0b1000_0000
                || (x ^ (x & ((x - 1) as u16))) == 0b1_0000_0000
                || (x ^ (x & ((x - 1) as u16))) == 0b10_0000_0000,
        x != 0 ==> (x & ((x - 1) as u16)) & !0b11_1111_1110u16 == 0 && (x & ((x - 1) as u16)) < x,
{
    lemma_digit_facts(x, 0);
}

/// A mask has the digits of its lowest digit and of the rest, and they
/// share none.
proof fn lemma_lowest_parts(x: u16, d: u16)
    requires
        x != 0,
        d < 16,
    ensures
        x & (1u16 << d) != 0 <==> (x & ((x - 1) as u16)) & (1u16 << d) != 0 || (x ^ (x & ((x - 1) as u16))) & (1u16 << d)
            != 0,
        !((x & ((x - 1) as u16)) & (1u16 << d) != 0 && (x ^ (x & ((x - 1) as u16))) & (1u16 << d) != 0),
{
    lemma_digit_facts(x, d);
}

/// How membership of a digit goes through the bitwise operations.
pub proof fn lemma_digit_ops(a: u16, b: u16, d: u16)
    ensures
        d < 16 ==> ((a & b) & (1u16 << d) != 0 <==> a & (1u16 << d) != 0 && b & (1u16 << d) != 0),
        d < 16 ==> ((a | b) & (1u16 << d) != 0 <==> a & (1u16 << d) != 0 || b & (1u16 << d) != 0),
        d < 16 ==> ((a & !b) & (1u16 << d) != 0 <==> a & (1u16 << d) != 0 && b & (1u16 << d) == 0),
        d < 16 ==> 0u16 & (1u16 << d) == 0,
        a & !0b11_1111_1110u16 == 0 ==> (a & b) & !0b11_1111_1110u16 == 0 && (a & !b) & !0b11_1111_1110u16 == 0,
        a & !0b11_1111_1110u16 == 0 && b & !0b11_1111_1110u16 == 0 ==> (a | b) & !0b11_1111_1110u16 == 0,
        0u16 & !0b11_1111_1110u16 == 0,
{
    lemma_mask_facts(a, b, 0, d);
}

/// Two masks that differ differ in a digit.
proof fn lemma_differ(a: u16, b: u16, t: u16)
    requires
        a != b,
        t < 16 ==> ((a ^ b) >> t) & 1 == 1,
        (a ^ b) == 0 <==> t == 16,
        t <= 16,
    ensures
        t < 16,
        (a & (1u16 << t) != 0) != (b & (1u16 << t) != 0),
{
    lemma_digit_pairs(a, b, t);
}

/// A mask that is more than its lowest digit holds two digits.
proof fn lemma_two_digits(m: u16, d1: u16, d2: u16)
    requires
        m != 0,
        m & ((m - 1) as u16) != 0,
        d1 < 16 ==> ((m ^ (m & ((m - 1) as u16))) >> d1) & 1 == 1,
        d2 < 16 ==> ((m & ((m - 1) as u16)) >> d2) & 1 == 1,
        d1 == 16 <==> (m ^ (m & ((m - 1) as u16))) == 0,
        d2 == 16 <==> (m & ((m - 1) as u16)) == 0,
        d1 <= 16,
        d2 <= 16,
    ensures
        d1 < 16,
        d2 < 16,
        d1 != d2,
        m & (1u16 << d1) != 0,
        m & (1u16 << d2) != 0,
{
    lemma_digit_pairs(m, d1, d2);
}

/// How the digits of a mask change when a digit is flipped.
proof fn lemma_xor_digit(m: u16, d: u16, e: u16)
    requires
        1 <= d <= 9,
        e < 16,
    ensures
        m & !0b11_1111_1110u16 == 0 ==> (m ^ (1u16 << d)) & !0b11_1111_1110u16 == 0,
        (m ^ (1u16 << d)) & (1u16 << e) != 0 <==> (m & (1u16 << e) != 0) != (e == d),
{
    lemma_digit_pairs(m, d, e);
}

/// What is left of a mask when the digits of another are taken from it.
proof fn lemma_eliminate(a: u16, m: u16, d: u16)
    ensures
        a & m != 0 ==> a & !m < a,
        a & m == 0 ==> a & !m == a,
        a & !m <= a,
        a & !0b11_1111_1110u16 == 0 ==> (a & !m) & !0b11_1111_1110u16 == 0,
        d < 16 ==> ((a & !m) & (1u16 << d) != 0 <==> a & (1u16 << d) != 0 && m & (1u16 << d) == 0),
        d < 16 && a & m == 0 && a & (1u16 << d) != 0 ==> m & (1u16 << d) == 0,
{
    lemma_taken_away(a, m, d);
}

/// A mask of one digit shares nothing with a mask that lacks the digit.
proof fn lemma_single_mask(a: u16, m: u16, d: u16)
    requires
        d < 16,
        a == 1u16 << d,
        m & (1u16 << d) == 0,
    ensures
        a & m == 0,
{
    lemma_taken_away(a, m, d);
}

proof fn lemma_count_none(marks: Seq<bool>, n: int)
    requires
        0 <= n <= marks.len(),
        forall|i: int| 0 <= i < n ==> !marks[i],
    ensures
        count_true(marks, n) == 0,
    decreases n,
{
    if n > 0 {
        lemma_count_none(marks, n - 1);
    }
}

/// What holds of a mask of digits and of its lowest digit.
proof fn lemma_digit_facts(m: u16, d: u16)
    by (bit_vector)
    ensures
        0u16 & !0b11_1111_1110u16 == 0,
        m & !0b11_1111_1110u16 == 0 && m != 0 && m & ((m - 1) as u16) == 0
            ==> m == 0b10
                || m == 0b100
                || m == 0b1000
                || m == 0b1_0000
                || m == 0b10_0000
                || m == 0b100_0000
                || m == 0b1000_0000
                || m == 0b1_0000_0000
                || m == 0b10_0000_0000,
        1u16 << 1 == 0b10
            && 1u16 << 2 == 0b100
            && 1u16 << 3 == 0b1000
            && 1u16 << 4 == 0b1_0000
            && 1u16 << 5 == 0b10_0000
            && 1u16 << 6 == 0b100_0000
            && 1u16 << 7 == 0b1000_0000
            && 1u16 << 8 == 0b1_0000_0000
            && 1u16 << 9 == 0b10_0000_0000,
        m == 0 ==> (d < 16 ==> m & (1u16 << d) == 0),
        1 <= d <= 9 ==> (1u16 << d) & !0b11_1111_1110u16 == 0 && (1u16 << d) != 0 && (1u16 << d) & (((1u16 << d) - 1) as u16) == 0,
        m & !0b11_1111_1110u16 == 0 && d < 16 && m & (1u16 << d) != 0 ==> 1 <= d <= 9,
        d < 16 ==> (m & !(1u16 << d) == m <==> m & (1u16 << d) == 0),
        d < 16 ==> (m & !(1u16 << d)) & m == m & !(1u16 << d) && m & !(1u16 << d) <= m,
        d < 16 && m & (1u16 << d) != 0 ==> m & !(1u16 << d) < m && (1u16 << d) <= m && (m ^ (1u16 << d)) == m & !( 1u16 << d),
        (m & !0b11_1111_1110u16 == 0)
            ==> (m != 0
                ==> (m ^ (m & ((m - 1) as u16))) == 0b10
                    || (m ^ (m & ((m - 1) as u16))) == 0b100
                    || (m ^ (m & ((m - 1) as u16))) == 0b1000
                    || (m ^ (m & ((m - 1) as u16))) == 0b1_0000
                    || (m ^ (m & ((m - 1) as u16))) == 0b10_0000
                    || (m ^ (m & ((m - 1) as u16))) == 0b100_0000
                    || (m ^ (m & ((m - 1) as u16))) == 0b1000_0000
                    || (m ^ (m & ((m - 1) as u16))) == 0b1_0000_0000
                    || (m ^ (m & ((m - 1) as u16))) == 0b10_0000_0000),
        (m & !0b11_1111_1110u16 == 0) ==> (m != 0 ==> (m & ((m - 1) as u16)) & !0b11_1111_1110u16 == 0 && (m & ((m - 1) as u16)) < m),
        d < 16 && m != 0 ==> (m & (1u16 << d) != 0 <==> (m & ((m - 1) as u16)) & (1u16 << d) != 0 || (m ^ (m & ((m - 1) as u16))) & (1u16 << d) != 0),
        d < 16 && m != 0 ==> !((m & ((m - 1) as u16)) & (1u16 << d) != 0 && (m ^ (m & ((m - 1) as u16))) & (1u16 << d) != 0),
{
}

/// What is left of a mask when the digits of another are taken from it.
proof fn lemma_taken_away(a: u16, m: u16, d: u16)
    by (bit_vector)
    ensures
        a & m != 0 ==> a & !m < a,
        a & m == 0 ==> a & !m == a,
        a & !m <= a,
        a & !0b11_1111_1110u16 == 0 ==> (a & !m) & !0b11_1111_1110u16 == 0,
        d < 16 ==> ((a & !m) & (1u16 << d) != 0 <==> a & (1u16 << d) != 0 && m & (1u16 << d) == 0),
        d < 16 && a & m == 0 && a & (1u16 << d) != 0 ==> m & (1u16 << d) == 0,
        (d < 16) && (a == 1u16 << d) && (m & (1u16 << d) == 0) ==> (a & m == 0),
{
}

/// What holds of two masks and a digit, or of a mask and two digits.
proof fn lemma_digit_pairs(a: u16, b: u16, t: u16)
    by (bit_vector)
    ensures
        (a != b) && (t < 16 ==> ((a ^ b) >> t) & 1 == 1) && ((a ^ b) == 0 <==> t == 16) && (t <= 16) ==> (t < 16),
        (a != b) && (t < 16 ==> ((a ^ b) >> t) & 1 == 1) && ((a ^ b) == 0 <==> t == 16) && (t <= 16) ==> ((a & (1u16 << t) != 0) != (b & (1u16 << t) != 0)),
        (1 <= b <= 9) && (t < 16) ==> (a & !0b11_1111_1110u16 == 0 ==> (a ^ (1u16 << b)) & !0b11_1111_1110u16 == 0),
        (1 <= b <= 9) && (t < 16) ==> ((a ^ (1u16 << b)) & (1u16 << t) != 0 <==> (a & (1u16 << t) != 0) != (t == b)),
        (a != 0)
            && (a & ((a - 1) as u16) != 0)
            && (b < 16 ==> ((a ^ (a & ((a - 1) as u16))) >> b) & 1 == 1)
            && (t < 16 ==> ((a & ((a - 1) as u16)) >> t) & 1 == 1)
            && (b == 16 <==> (a ^ (a & ((a - 1) as u16))) == 0)
            && (t == 16 <==> (a & ((a - 1) as u16)) == 0)
            && (b <= 16)
            && (t <= 16)
            ==> (b < 16),
        (a != 0)
            && (a & ((a - 1) as u16) != 0)
            && (b < 16 ==> ((a ^ (a & ((a - 1) as u16))) >> b) & 1 == 1)
            && (t < 16 ==> ((a & ((a - 1) as u16)) >> t) & 1 == 1)
            && (b == 16 <==> (a ^ (a & ((a - 1) as u16))) == 0)
            && (t == 16 <==> (a & ((a - 1) as u16)) == 0)
            && (b <= 16)
            && (t <= 16)
            ==> (t < 16),
        (a != 0)
            && (a & ((a - 1) as u16) != 0)
            && (b < 16 ==> ((a ^ (a & ((a - 1) as u16))) >> b) & 1 == 1)
            && (t < 16 ==> ((a & ((a - 1) as u16)) >> t) & 1 == 1)
            && (b == 16 <==> (a ^ (a & ((a - 1) as u16))) == 0)
            && (t == 16 <==> (a & ((a - 1) as u16)) == 0)
            && (b <= 16)
            && (t <= 16)
            ==> (b != t),
        (a != 0)
            && (a & ((a - 1) as u16) != 0)
            && (b < 16 ==> ((a ^ (a & ((a - 1) as u16))) >> b) & 1 == 1)
            && (t < 16 ==> ((a & ((a - 1) as u16)) >> t) & 1 == 1)
            && (b == 16 <==> (a ^ (a & ((a - 1) as u16))) == 0)
            && (t == 16 <==> (a & ((a - 1) as u16)) == 0)
            && (b <= 16)
            && (t <= 16)
            ==> (a & (1u16 << b) != 0),
        (a != 0)
            && (a & ((a - 1) as u16) != 0)
            && (b < 16 ==> ((a ^ (a & ((a - 1) as u16))) >> b) & 1 == 1)
            && (t < 16 ==> ((a & ((a - 1) as u16)) >> t) & 1 == 1)
            && (b == 16 <==> (a ^ (a & ((a - 1) as u16))) == 0)
            && (t == 16 <==> (a & ((a - 1) as u16)) == 0)
            && (b <= 16)
            && (t <= 16)
            ==> (a & (1u16 << t) != 0),
{
}

/// How the digits of masks go through the bitwise operations.
proof fn lemma_mask_facts(u: u16, c: u16, x: u16, d: u16)
    by (bit_vector)
    ensures
        0u16 & !0b11_1111_1110u16 == 0,
        u & !0b11_1111_1110u16 == 0 && c & !0b11_1111_1110u16 == 0 ==> (u | c) & !0b11_1111_1110u16 == 0,
        c & (u | c) == c,
        x & u == x ==> x & (u | c) == x,
        x & u == x && d < 16 && c & (1u16 << d) != 0 ==> (x | (1u16 << d)) & (u | c) == x | (1u16 << d),
        u & c == u ==> u & !c == 0,
        u & x == u && d < 16 && x & (1u16 << d) != 0 ==> (u | (1u16 << d)) & x == u | (1u16 << d),
        0u16 & 0u16 == 0,
        d < 16 ==> ((u & c) & (1u16 << d) != 0 <==> u & (1u16 << d) != 0 && c & (1u16 << d) != 0),
        d < 16 ==> ((u | c) & (1u16 << d) != 0 <==> u & (1u16 << d) != 0 || c & (1u16 << d) != 0),
        d < 16 ==> ((u & !c) & (1u16 << d) != 0 <==> u & (1u16 << d) != 0 && c & (1u16 << d) == 0),
        d < 16 ==> 0u16 & (1u16 << d) == 0,
        u & !0b11_1111_1110u16 == 0 ==> (u & c) & !0b11_1111_1110u16 == 0 && (u & !c) & !0b11_1111_1110u16 == 0,
        u & !0b11_1111_1110u16 == 0 && c & !0b11_1111_1110u16 == 0 ==> (u | c) & !0b11_1111_1110u16 == 0,
        0u16 & !0b11_1111_1110u16 == 0,
        u & x == u && c & x == c && u < c ==> u <= ((c - 1) as u16) & x,
        c != 0 ==> (((c - 1) as u16) & x) & x == ((c - 1) as u16) & x,
        x & x == x,
        u & x == u ==> u <= x,
        u & c == u && x & d == x ==> (u | x) & (c | d) == (u | x),
        u & c == u && c & x == c && u == x ==> c == x,
        u & c == u && u & x != 0 ==> c & x != 0,
        (u & !c) & c == 0,
        u & c == 0 ==> u & !c == u,
        c != 0 ==> ((c - 1) as u16) & x < c,
{
}

/// Masks within masks: what they make together, what lies between two
/// that are the same, and what a mask shares with a third.
proof fn lemma_within_facts(a: u16, b: u16, c: u16, d: u16)
    ensures
        a & b == a && c & d == c ==> (a | c) & (b | d) == (a | c),
        a & b == a && b & c == b && a == c ==> b == c,
        a & b == a && a & c != 0 ==> b & c != 0,
        0u16 & 0u16 == 0,
        (a & !b) & b == 0,
        a & b == 0 ==> a & !b == a,
        b != 0 ==> ((b - 1) as u16) & c < b,
{
    lemma_mask_facts(a, b, c, d);
}

/// The subset that comes after a subset is the greatest of the subsets
/// below it.
proof fn lemma_subset_below(t: u16, s: u16, x: u16)
    ensures
        t & x == t && s & x == s && t < s ==> t <= ((s - 1) as u16) & x,
        s != 0 ==> (((s - 1) as u16) & x) & x == ((s - 1) as u16) & x,
        x & x == x,
        t & x == t ==> t <= x,
{
    lemma_mask_facts(t, s, x, 0);
}

/// Masks seen as wider numbers.
proof fn lemma_wider(a: u16, b: u16)
    by (bit_vector)
    ensures
        b != 0 && b & ((b - 1) as u16) == 0 ==> (b as u128) != 0 && (b as u128) & (((b as u128) - 1) as u128) == 0,
        a & b == 0 ==> (a as u128) & (b as u128) == 0,
        ((a | b) as u128) == (a as u128) | (b as u128),
        (a & b == a) ==> ((a as u128) & (b as u128) == (a as u128)),
{
}

} // verus!
