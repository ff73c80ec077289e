//! A grid together with the digits that each row, column and box still lacks.

use vstd::prelude::*;
use vstd::array::spec_array_update;
use crate::bitmask::Bitmask;
use crate::dfs_with_progress::{DepthFirstSearcherWithProgress, DepthFirstTraversable, subtree};
use crate::expansion::{Expansion, PlusNSearchState};
use crate::filter::Filter;
use crate::generate::{GenerationBase, TemplateGeneratorState};
use crate::progress::{
    digits_le, digits_ok, lemma_digits_le_extend, lemma_digits_le_prefix, lemma_digits_le_trans,
};
use crate::bits::popcount;
use crate::sudoku::{Sudoku, box_index, box_of, col_index, col_of, is_valid_grid, peers, row_index, row_of};

verus! {

/// The bits of the digits 1 to 9.
pub const ALL_DIGITS_MASK: u16 = 0b11_1111_1110;

/// The mask of the digits 1 to 9.
pub fn all_digits() -> (r: Bitmask<u16>)
    ensures
        r@ == ALL_DIGITS_MASK,
{
    Bitmask::<u16>::from(ALL_DIGITS_MASK)
}

/// Whether digit `d` is in the mask.
pub open spec fn has_digit(mask: u16, d: int) -> bool {
    0 <= d < 16 && mask & (1u16 << (d as u16)) != 0
}

/// How many of the first `n` cells of a grid hold no digit.
pub open spec fn zeros(g: Seq<u8>, n: int) -> int
    decreases n,
{
    if n <= 0 {
        0
    } else {
        zeros(g, n - 1) + (if g[n - 1] == 0 { 1int } else { 0int })
    }
}

/// A grid with a digit at a cell that held none has one cell less that
/// holds no digit.
pub proof fn lemma_zeros_update(g: Seq<u8>, i: int, d: u8, n: int)
    requires
        0 <= i < g.len(),
        0 <= n <= g.len(),
        g[i] == 0,
        d != 0,
    ensures
        zeros(g.update(i, d), n) == zeros(g, n) - (if i < n { 1int } else { 0int }),
    decreases n,
{
    if n > 0 {
        lemma_zeros_update(g, i, d, n - 1);
    }
}

/// How many of the digits from 1 to `n` a mask holds.
pub open spec fn digit_sum(m: u16, n: int) -> int
    decreases n,
{
    if n <= 0 {
        0
    } else {
        digit_sum(m, n - 1) + (if has_digit(m, n) { 1int } else { 0int })
    }
}

/// Whether none of the first `k` cells of row `r` holds digit `d`.
pub open spec fn row_lacks(g: Seq<u8>, r: int, k: int, d: int) -> bool {
    forall|j: int| 0 <= j < k ==> #[trigger] g[9 * r + j] != d
}

/// How many of the digits from 1 to `n` none of the first `k` cells of
/// row `r` holds.
pub open spec fn count_lacks(g: Seq<u8>, r: int, k: int, n: int) -> int
    decreases n,
{
    if n <= 0 {
        0
    } else {
        count_lacks(g, r, k, n - 1) + (if row_lacks(g, r, k, n) { 1int } else { 0int })
    }
}

/// The bits of a mask of digits, one by one.
proof fn lemma_digit_bits(m: u16)
    by (bit_vector)
    requires
        m & !0b11_1111_1110u16 == 0,
    ensures
        m % 2 == 0,
        m / 1_024 == 0,
        (m / 2) % 2 == 1 <==> m & (1u16 << 1) != 0,
        (m / 4) % 2 == 1 <==> m & (1u16 << 2) != 0,
        (m / 8) % 2 == 1 <==> m & (1u16 << 3) != 0,
        (m / 16) % 2 == 1 <==> m & (1u16 << 4) != 0,
        (m / 32) % 2 == 1 <==> m & (1u16 << 5) != 0,
        (m / 64) % 2 == 1 <==> m & (1u16 << 6) != 0,
        (m / 128) % 2 == 1 <==> m & (1u16 << 7) != 0,
        (m / 256) % 2 == 1 <==> m & (1u16 << 8) != 0,
        (m / 512) % 2 == 1 <==> m & (1u16 << 9) != 0,
{
}

/// A mask of digits has as many bits as it holds digits.
pub proof fn lemma_digit_sum(m: u16)
    requires
        m & !ALL_DIGITS_MASK == 0,
    ensures
        popcount(m as u128) == digit_sum(m, 9),
{
    lemma_digit_bits(m);
    let x = m as u128;
    reveal_with_fuel(popcount, 12);
    reveal_with_fuel(digit_sum, 10);
    assert(x / 2 / 2 == x / 4 && x / 4 / 2 == x / 8 && x / 8 / 2 == x / 16 && x / 16 / 2 == x / 32 && x / 32 / 2 == x
        / 64 && x / 64 / 2 == x / 128 && x / 128 / 2 == x / 256 && x / 256 / 2 == x / 512 && x / 512 / 2 == x / 1_024);
    assert(popcount(x) == (x / 2) % 2 + (x / 4) % 2 + (x / 8) % 2 + (x / 16) % 2 + (x / 32) % 2 + (x / 64) % 2 + (x
        / 128) % 2 + (x / 256) % 2 + (x / 512) % 2);
}

/// How many digits the first cells of a row leave out falls by one with
/// each further cell that holds a digit.
proof fn lemma_count_lacks(g: Seq<u8>, r: int, k: int, n: int)
    requires
        is_valid_grid(g),
        0 <= r < 9,
        0 <= k < 9,
        0 <= n <= 9,
    ensures
        count_lacks(g, r, k + 1, n) == count_lacks(g, r, k, n) - (if 1 <= g[9 * r + k] <= n { 1int } else { 0int }),
        count_lacks(g, r, 0, n) == n,
    decreases n,
{
    if n > 0 {
        lemma_count_lacks(g, r, k, n - 1);
        let c = 9 * r + k;
        if g[c] == n {
            assert forall|j: int| 0 <= j < k implies #[trigger] g[9 * r + j] != n by {
                assert(peers(c, 9 * r + j));
                assert(g[c] != 0);
            }
            assert(!row_lacks(g, r, k + 1, n));
        } else {
            if row_lacks(g, r, k, n) {
                assert forall|j: int| 0 <= j < k + 1 implies #[trigger] g[9 * r + j] != n by {}
            }
            if row_lacks(g, r, k + 1, n) {
                assert forall|j: int| 0 <= j < k implies #[trigger] g[9 * r + j] != n by {}
            }
        }
    }
}

/// The digits that the first cells of a row leave out, by the cells that
/// hold no digit.
proof fn lemma_row_zeros(g: Seq<u8>, r: int, k: int)
    requires
        is_valid_grid(g),
        0 <= r < 9,
        0 <= k <= 9,
    ensures
        count_lacks(g, r, k, 9) == 9 - k + zeros(g, 9 * r + k) - zeros(g, 9 * r),
    decreases k,
{
    if k > 0 {
        lemma_row_zeros(g, r, k - 1);
        lemma_count_lacks(g, r, k - 1, 9);
        assert(g[9 * r + k - 1] <= 9);
    } else {
        lemma_count_lacks(g, r, 0, 9);
    }
}

/// How the digits of a mask change when one is added or taken away.
pub proof fn lemma_digit_masks(m: u16, a: u16, b: u16, d: u16, e: u16)
    by (bit_vector)
    requires
        d < 16,
        e < 16,
    ensures
        (m & !(1u16 << d)) & (1u16 << e) != 0 <==> m & (1u16 << e) != 0 && e != d,
        (m | (1u16 << d)) & (1u16 << e) != 0 <==> m & (1u16 << e) != 0 || e == d,
        m & (1u16 << d) != 0 ==> (m & !(1u16 << d)) | (1u16 << d) == m,
        m & (1u16 << d) == 0 ==> (m | (1u16 << d)) & !(1u16 << d) == m,
        0b11_1111_1110u16 & (1u16 << d) != 0 <==> 1 <= d <= 9,
        ((m & a) & b) & (1u16 << d) != 0 <==> m & (1u16 << d) != 0 && a & (1u16 << d) != 0 && b & (1u16 << d) != 0,
        (1u16 << d) & (1u16 << e) != 0 <==> d == e,
        m & !0b11_1111_1110u16 == 0 ==> (m & !(1u16 << d)) & !0b11_1111_1110u16 == 0,
        m & !0b11_1111_1110u16 == 0 && 1 <= d <= 9 ==> (m | (1u16 << d)) & !0b11_1111_1110u16 == 0,
        m & !0b11_1111_1110u16 == 0 ==> ((m & a) & b) & !0b11_1111_1110u16 == 0,
        0b11_1111_1110u16 & !0b11_1111_1110u16 == 0,
{
}

/// A digit of a mask of digits is a digit from 1 to 9, and is a set bit of
/// the mask seen as a wider number.
pub proof fn lemma_digit_bound(m: u16, d: u16)
    by (bit_vector)
    ensures
        m & !0b11_1111_1110u16 == 0 && d < 16 && m & (1u16 << d) != 0 ==> 1 <= d <= 9,
        d < 16 ==> (((m as u128) >> (d as u128)) & 1 == 1 <==> m & (1u16 << d) != 0),
        16 <= d < 128 ==> ((m as u128) >> (d as u128)) & 1 == 0,
        0u16 & !0b11_1111_1110u16 == 0,
{
}

/// A grid with, for each row, column and box, the mask of the digits that
/// are not placed in it.
#[derive(Clone, Copy)]
pub struct RegionMaskedSudoku {
    sudoku: Sudoku,
    rows: [Bitmask<u16>; 9],
    cols: [Bitmask<u16>; 9],
    boxes: [Bitmask<u16>; 9],
}

impl RegionMaskedSudoku {
    /// The digits of the grid.
    pub closed spec fn grid(&self) -> Seq<u8> {
        self.sudoku@
    }

    /// The digits that row `r` lacks.
    pub closed spec fn row_mask(&self, r: int) -> u16 {
        self.rows[r]@
    }

    /// The digits that column `c` lacks.
    pub closed spec fn col_mask(&self, c: int) -> u16 {
        self.cols[c]@
    }

    /// The digits that box `b` lacks.
    pub closed spec fn box_mask(&self, b: int) -> u16 {
        self.boxes[b]@
    }

    /// The grid is valid, and each mask holds the digits from 1 to 9 that
    /// are not placed in its region.
    pub open spec fn wf(&self) -> bool {
        &&& is_valid_grid(self.grid())
        &&& forall|r: int| 0 <= r < 9 ==> #[trigger] self.row_mask(r) & !ALL_DIGITS_MASK == 0
        &&& forall|c: int| 0 <= c < 9 ==> #[trigger] self.col_mask(c) & !ALL_DIGITS_MASK == 0
        &&& forall|b: int| 0 <= b < 9 ==> #[trigger] self.box_mask(b) & !ALL_DIGITS_MASK == 0
        &&& forall|r: int, d: int|
            0 <= r < 9 && 1 <= d <= 9 ==> (#[trigger] has_digit(self.row_mask(r), d) <==> forall|i: int|
                0 <= i < 81 && row_of(i) == r ==> #[trigger] self.grid()[i] != d)
        &&& forall|c: int, d: int|
            0 <= c < 9 && 1 <= d <= 9 ==> (#[trigger] has_digit(self.col_mask(c), d) <==> forall|i: int|
                0 <= i < 81 && col_of(i) == c ==> #[trigger] self.grid()[i] != d)
        &&& forall|b: int, d: int|
            0 <= b < 9 && 1 <= d <= 9 ==> (#[trigger] has_digit(self.box_mask(b), d) <==> forall|i: int|
                0 <= i < 81 && box_of(i) == b ==> #[trigger] self.grid()[i] != d)
    }

    /// The digits that can go to cell `i`: the digit that is there, or the
    /// digits that its row, its column and its box all lack.
    pub open spec fn candidate_mask(&self, i: int) -> u16 {
        if self.grid()[i] != 0 {
            1u16 << (self.grid()[i] as u16)
        } else {
            (self.row_mask(row_of(i)) & self.col_mask(col_of(i))) & self.box_mask(box_of(i))
        }
    }

    /// The state with `digit` written at cell `idx` and taken from the
    /// masks of the cell's row, column and box.
    pub closed spec fn with_digit(&self, idx: int, digit: u8) -> Self {
        let (r, c, b) = (row_of(idx), col_of(idx), box_of(idx));
        RegionMaskedSudoku {
            sudoku: Sudoku(spec_array_update(self.sudoku.0, idx, digit)),
            rows: spec_array_update(self.rows, r, Bitmask::<u16>::of(self.rows[r]@ & !(1u16 << digit))),
            cols: spec_array_update(self.cols, c, Bitmask::<u16>::of(self.cols[c]@ & !(1u16 << digit))),
            boxes: spec_array_update(self.boxes, b, Bitmask::<u16>::of(self.boxes[b]@ & !(1u16 << digit))),
        }
    }

    /// What [`Self::with_digit`] holds.
    pub proof fn lemma_with_digit(&self, idx: int, digit: u8)
        requires
            0 <= idx < 81,
            digit < 16,
        ensures
            self.with_digit(idx, digit).grid() == self.grid().update(idx, digit),
            forall|k: int|
                0 <= k < 9 ==> #[trigger] self.with_digit(idx, digit).row_mask(k) == (if k == row_of(idx) {
                    self.row_mask(k) & !(1u16 << digit)
                } else {
                    self.row_mask(k)
                }),
            forall|k: int|
                0 <= k < 9 ==> #[trigger] self.with_digit(idx, digit).col_mask(k) == (if k == col_of(idx) {
                    self.col_mask(k) & !(1u16 << digit)
                } else {
                    self.col_mask(k)
                }),
            forall|k: int|
                0 <= k < 9 ==> #[trigger] self.with_digit(idx, digit).box_mask(k) == (if k == box_of(idx) {
                    self.box_mask(k) & !(1u16 << digit)
                } else {
                    self.box_mask(k)
                }),
            self.wf() && self.grid()[idx] == 0 && 1 <= digit <= 9 && has_digit(self.candidate_mask(idx), digit as int)
                ==> self.with_digit(idx, digit).wf(),
    {
        let after = self.with_digit(idx, digit);
        assert(after.grid() =~= self.grid().update(idx, digit));
        Bitmask::<u16>::lemma_of(self.rows[row_of(idx)]@ & !(1u16 << digit));
        Bitmask::<u16>::lemma_of(self.cols[col_of(idx)]@ & !(1u16 << digit));
        Bitmask::<u16>::lemma_of(self.boxes[box_of(idx)]@ & !(1u16 << digit));
        if self.wf() && self.grid()[idx] == 0 && 1 <= digit <= 9 && has_digit(self.candidate_mask(idx), digit as int) {
            self.lemma_placed(&after, idx, digit);
        }
    }

    /// Taking back a digit that was placed at an empty cell where it could
    /// go gives the state as it was.
    pub proof fn lemma_unplaced(&self, after: &Self, idx: int, digit: u8)
        requires
            0 <= idx < 81,
            digit < 16,
            self.grid()[idx] == 0,
            has_digit(self.candidate_mask(idx), digit as int),
            after.grid() == self.with_digit(idx, digit).grid().update(idx, 0u8),
            forall|k: int|
                0 <= k < 9 ==> #[trigger] after.row_mask(k) == (if k == row_of(idx) {
                    self.with_digit(idx, digit).row_mask(k) | (1u16 << digit)
                } else {
                    self.with_digit(idx, digit).row_mask(k)
                }),
            forall|k: int|
                0 <= k < 9 ==> #[trigger] after.col_mask(k) == (if k == col_of(idx) {
                    self.with_digit(idx, digit).col_mask(k) | (1u16 << digit)
                } else {
                    self.with_digit(idx, digit).col_mask(k)
                }),
            forall|k: int|
                0 <= k < 9 ==> #[trigger] after.box_mask(k) == (if k == box_of(idx) {
                    self.with_digit(idx, digit).box_mask(k) | (1u16 << digit)
                } else {
                    self.with_digit(idx, digit).box_mask(k)
                }),
        ensures
            *after == *self,
    {
        self.lemma_with_digit(idx, digit);
        let (r, c, b) = (row_of(idx), col_of(idx), box_of(idx));
        lemma_digit_masks(self.row_mask(r), self.col_mask(c), self.box_mask(b), digit as u16, digit as u16);
        lemma_digit_masks(self.row_mask(r), 0, 0, digit as u16, 0);
        lemma_digit_masks(self.col_mask(c), 0, 0, digit as u16, 0);
        lemma_digit_masks(self.box_mask(b), 0, 0, digit as u16, 0);
        assert(after.grid() =~= self.grid());
        assert forall|k: int| 0 <= k < 9 implies after.row_mask(k) == self.row_mask(k) && after.col_mask(k)
            == self.col_mask(k) && after.box_mask(k) == self.box_mask(k) by {
            assert(self.with_digit(idx, digit).row_mask(k) == (if k == r {
                self.row_mask(k) & !(1u16 << digit)
            } else {
                self.row_mask(k)
            }));
            assert(self.with_digit(idx, digit).col_mask(k) == (if k == c {
                self.col_mask(k) & !(1u16 << digit)
            } else {
                self.col_mask(k)
            }));
            assert(self.with_digit(idx, digit).box_mask(k) == (if k == b {
                self.box_mask(k) & !(1u16 << digit)
            } else {
                self.box_mask(k)
            }));
        }
        after.lemma_same(self);
    }

    /// The digits that can go to a cell are digits from 1 to 9.
    pub proof fn lemma_candidates(&self, idx: int, d: int)
        requires
            self.wf(),
            0 <= idx < 81,
            self.grid()[idx] == 0,
            has_digit(self.candidate_mask(idx), d),
        ensures
            1 <= d <= 9,
    {
        let (r, c, b) = (row_of(idx), col_of(idx), box_of(idx));
        lemma_digit_masks(self.row_mask(r), self.col_mask(c), self.box_mask(b), d as u16, 0);
        lemma_digit_bound(self.row_mask(r), d as u16);
    }

    /// A digit can go to an empty cell exactly where no peer of the cell
    /// holds it.
    pub proof fn lemma_peer_holds(&self, idx: int, d: int)
        requires
            self.wf(),
            0 <= idx < 81,
            1 <= d <= 9,
            self.grid()[idx] == 0,
        ensures
            has_digit(self.candidate_mask(idx), d) <==> forall|i: int|
                0 <= i < 81 && peers(i, idx) ==> #[trigger] self.grid()[i] != d,
    {
        let (r, c, b) = (row_of(idx), col_of(idx), box_of(idx));
        lemma_digit_masks(self.row_mask(r), self.col_mask(c), self.box_mask(b), d as u16, 0);
        assert(has_digit(self.row_mask(r), d) <==> forall|i: int|
            0 <= i < 81 && row_of(i) == r ==> #[trigger] self.grid()[i] != d);
        assert(has_digit(self.col_mask(c), d) <==> forall|i: int|
            0 <= i < 81 && col_of(i) == c ==> #[trigger] self.grid()[i] != d);
        assert(has_digit(self.box_mask(b), d) <==> forall|i: int|
            0 <= i < 81 && box_of(i) == b ==> #[trigger] self.grid()[i] != d);
    }

    /// Two states with the same grid and the same masks are the same.
    pub proof fn lemma_same(&self, other: &Self)
        requires
            self.grid() == other.grid(),
            forall|k: int|
                0 <= k < 9 ==> self.row_mask(k) == other.row_mask(k) && self.col_mask(k) == other.col_mask(k)
                    && self.box_mask(k) == other.box_mask(k),
        ensures
            *self == *other,
    {
        assert(self.sudoku.0 =~= other.sudoku.0);
        assert forall|k: int| 0 <= k < 9 implies self.rows[k] == other.rows[k] && self.cols[k] == other.cols[k]
            && self.boxes[k] == other.boxes[k] by {
            assert(self.row_mask(k) == other.row_mask(k));
            Bitmask::<u16>::lemma_same(self.rows[k], other.rows[k]);
            Bitmask::<u16>::lemma_same(self.cols[k], other.cols[k]);
            Bitmask::<u16>::lemma_same(self.boxes[k], other.boxes[k]);
        }
        assert(self.rows =~= other.rows);
        assert(self.cols =~= other.cols);
        assert(self.boxes =~= other.boxes);
    }

    /// The grid without a digit.
    pub fn empty() -> (r: Self)
        ensures
            r.wf(),
            r.grid() == Seq::new(81, |i: int| 0u8),
            forall|k: int| 0 <= k < 9 ==> r.row_mask(k) == ALL_DIGITS_MASK && r.col_mask(k) == ALL_DIGITS_MASK
                && r.box_mask(k) == ALL_DIGITS_MASK,
    {
        let r = Self {
            sudoku: Sudoku::empty(),
            rows: [all_digits(); 9],
            cols: [all_digits(); 9],
            boxes: [all_digits(); 9],
        };
        proof {
            assert forall|d: int| 1 <= d <= 9 implies #[trigger] has_digit(ALL_DIGITS_MASK, d) by {
                lemma_digit_masks(0, 0, 0, d as u16, 0);
            }
            lemma_digit_masks(0, 0, 0, 0, 0);
        }
        r
    }

    /// The grid, as the board that holds it.
    pub closed spec fn board(&self) -> Sudoku {
        self.sudoku
    }

    /// The board holds the grid.
    pub proof fn lemma_board(&self)
        ensures
            self.board()@ == self.grid(),
    {
    }

    /// The grid.
    pub fn sudoku(&self) -> (r: &Sudoku)
        ensures
            r@ == self.grid(),
            *r == self.board(),
    {
        &self.sudoku
    }

    /// The digits that each row lacks.
    pub fn rows(&self) -> (r: &[Bitmask<u16>; 9])
        ensures
            forall|k: int| 0 <= k < 9 ==> r[k]@ == self.row_mask(k),
    {
        &self.rows
    }

    /// The digits that each column lacks.
    pub fn cols(&self) -> (r: &[Bitmask<u16>; 9])
        ensures
            forall|k: int| 0 <= k < 9 ==> r[k]@ == self.col_mask(k),
    {
        &self.cols
    }

    /// The digits that each box lacks.
    pub fn boxes(&self) -> (r: &[Bitmask<u16>; 9])
        ensures
            forall|k: int| 0 <= k < 9 ==> r[k]@ == self.box_mask(k),
    {
        &self.boxes
    }

    /// The sum over the rows of the number of digits that the row lacks.
    pub open spec fn lacking(&self, n: int) -> nat
        decreases n,
    {
        if n <= 0 {
            0
        } else {
            self.lacking(n - 1) + popcount(self.row_mask(n - 1) as u128)
        }
    }

    /// The digits that the rows of a grid that is in order lack are as
    /// many as the cells that hold no digit.
    pub proof fn lemma_lacking(&self, n: int)
        requires
            self.wf(),
            0 <= n <= 9,
        ensures
            self.lacking(n) == zeros(self.grid(), 9 * n),
        decreases n,
    {
        if n > 0 {
            self.lemma_lacking(n - 1);
            let r = n - 1;
            let m = self.row_mask(r);
            let g = self.grid();
            lemma_digit_sum(m);
            lemma_row_zeros(g, r, 9);
            assert forall|d: int| 1 <= d <= 9 implies (has_digit(m, d) <==> row_lacks(g, r, 9, d)) by {
                assert(has_digit(self.row_mask(r), d) <==> forall|i: int|
                    0 <= i < 81 && row_of(i) == r ==> #[trigger] self.grid()[i] != d);
                if has_digit(m, d) {
                    assert forall|j: int| 0 <= j < 9 implies #[trigger] g[9 * r + j] != d by {
                        assert(row_of(9 * r + j) == r);
                    }
                }
                if row_lacks(g, r, 9, d) {
                    assert forall|i: int| 0 <= i < 81 && row_of(i) == r implies #[trigger] self.grid()[i] != d by {
                        let j = i - 9 * r;
                        assert(0 <= j < 9 && g[9 * r + j] != d);
                    }
                }
            }
            Self::lemma_sums(m, g, r, 9);
        }
    }

    /// A mask that holds the digits that a row leaves out holds as many
    /// digits as the row leaves out.
    proof fn lemma_sums(m: u16, g: Seq<u8>, r: int, n: int)
        requires
            0 <= n <= 9,
            forall|d: int| 1 <= d <= 9 ==> (has_digit(m, d) <==> row_lacks(g, r, 9, d)),
        ensures
            digit_sum(m, n) == count_lacks(g, r, 9, n),
        decreases n,
    {
        if n > 0 {
            Self::lemma_sums(m, g, r, n - 1);
        }
    }

    /// The number of empty cells: the digits that the rows lack, summed up.
    /// In a grid that is in order this is the number of cells that hold no
    /// digit.
    pub fn empty_cells(&self) -> (r: usize)
        ensures
            r == self.lacking(9),
            self.wf() ==> r == zeros(self.grid(), 81),
    {
        proof {
            if self.wf() {
                self.lemma_lacking(9);
            }
        }
        let mut total: usize = 0;
        let mut row: usize = 0;
        while row < 9
            invariant
                row <= 9,
                total == self.lacking(row as int),
                total <= 128 * row,
            decreases 9 - row,
        {
            proof {
                crate::bits_std::lemma_popcount_bound(self.row_mask(row as int) as u128);
            }
            total += self.rows[row].count_ones() as usize;
            row += 1;
        }
        total
    }

    /// Writes `digit` at cell `idx` and takes it from the masks of the
    /// cell's row, column and box.
    pub fn place(&mut self, idx: usize, digit: u8)
        requires
            idx < 81,
            digit < 16,
        ensures
            *final(self) == old(self).with_digit(idx as int, digit),
            final(self).grid() == old(self).grid().update(idx as int, digit),
            forall|k: int|
                0 <= k < 9 ==> #[trigger] final(self).row_mask(k) == (if k == row_of(idx as int) {
                    old(self).row_mask(k) & !(1u16 << digit)
                } else {
                    old(self).row_mask(k)
                }),
            forall|k: int|
                0 <= k < 9 ==> #[trigger] final(self).col_mask(k) == (if k == col_of(idx as int) {
                    old(self).col_mask(k) & !(1u16 << digit)
                } else {
                    old(self).col_mask(k)
                }),
            forall|k: int|
                0 <= k < 9 ==> #[trigger] final(self).box_mask(k) == (if k == box_of(idx as int) {
                    old(self).box_mask(k) & !(1u16 << digit)
                } else {
                    old(self).box_mask(k)
                }),
            old(self).wf() && old(self).grid()[idx as int] == 0 && 1 <= digit <= 9 && has_digit(
                old(self).candidate_mask(idx as int),
                digit as int,
            ) ==> final(self).wf(),
    {
        self.sudoku.set(idx, digit);
        let (r, c, b) = (row_index(idx), col_index(idx), box_index(idx));
        let mut row = self.rows[r];
        row.unset(digit as usize);
        self.rows[r] = row;
        let mut col = self.cols[c];
        col.unset(digit as usize);
        self.cols[c] = col;
        let mut bx = self.boxes[b];
        bx.unset(digit as usize);
        self.boxes[b] = bx;
        proof {
            if old(self).wf() && old(self).grid()[idx as int] == 0 && 1 <= digit <= 9 && has_digit(
                old(self).candidate_mask(idx as int),
                digit as int,
            ) {
                old(self).lemma_placed(self, idx as int, digit);
            }
            old(self).lemma_with_digit(idx as int, digit);
            self.lemma_same(&old(self).with_digit(idx as int, digit));
        }
    }

    /// See [`Self::place`].
    proof fn lemma_placed(&self, after: &Self, idx: int, digit: u8)
        requires
            0 <= idx < 81,
            1 <= digit <= 9,
            self.wf(),
            self.grid()[idx] == 0,
            has_digit(self.candidate_mask(idx), digit as int),
            after.grid() == self.grid().update(idx, digit),
            forall|k: int|
                0 <= k < 9 ==> #[trigger] after.row_mask(k) == (if k == row_of(idx) {
                    self.row_mask(k) & !(1u16 << digit)
                } else {
                    self.row_mask(k)
                }),
            forall|k: int|
                0 <= k < 9 ==> #[trigger] after.col_mask(k) == (if k == col_of(idx) {
                    self.col_mask(k) & !(1u16 << digit)
                } else {
                    self.col_mask(k)
                }),
            forall|k: int|
                0 <= k < 9 ==> #[trigger] after.box_mask(k) == (if k == box_of(idx) {
                    self.box_mask(k) & !(1u16 << digit)
                } else {
                    self.box_mask(k)
                }),
        ensures
            after.wf(),
    {
        let (g, h) = (self.grid(), after.grid());
        let (r0, c0, b0) = (row_of(idx), col_of(idx), box_of(idx));
        lemma_digit_masks(
            self.row_mask(r0),
            self.col_mask(c0),
            self.box_mask(b0),
            digit as u16,
            digit as u16,
        );
        assert(has_digit(self.row_mask(r0), digit as int));
        assert(has_digit(self.col_mask(c0), digit as int));
        assert(has_digit(self.box_mask(b0), digit as int));
        assert forall|i: int, j: int|
            0 <= i < 81 && 0 <= j < 81 && peers(i, j) && #[trigger] h[i] != 0 implies h[i] != #[trigger] h[j] by {
            if i == idx {
                assert(g[j] != digit);
            } else if j == idx {
                assert(g[i] != digit);
            } else {
                assert(g[i] != g[j]);
            }
        }
        assert forall|i: int| 0 <= i < 81 implies #[trigger] h[i] <= 9 by {
            if i != idx {
                assert(g[i] <= 9);
            }
        }
        assert forall|r: int, d: int| 0 <= r < 9 && 1 <= d <= 9 implies (#[trigger] has_digit(
            after.row_mask(r),
            d,
        ) <==> forall|i: int| 0 <= i < 81 && row_of(i) == r ==> #[trigger] h[i] != d) by {
            lemma_digit_masks(self.row_mask(r), 0, 0, digit as u16, d as u16);
            assert(has_digit(self.row_mask(r), d) <==> forall|i: int|
                0 <= i < 81 && row_of(i) == r ==> #[trigger] g[i] != d);
            if r == r0 && d == digit {
                assert(h[idx] == d);
            } else if has_digit(self.row_mask(r), d) {
                assert forall|i: int| 0 <= i < 81 && row_of(i) == r implies #[trigger] h[i] != d by {
                    assert(g[i] != d);
                }
            } else {
                let i = choose|i: int| 0 <= i < 81 && row_of(i) == r && #[trigger] g[i] == d;
                assert(h[i] == d);
            }
        }
        assert forall|c: int, d: int| 0 <= c < 9 && 1 <= d <= 9 implies (#[trigger] has_digit(
            after.col_mask(c),
            d,
        ) <==> forall|i: int| 0 <= i < 81 && col_of(i) == c ==> #[trigger] h[i] != d) by {
            lemma_digit_masks(self.col_mask(c), 0, 0, digit as u16, d as u16);
            assert(has_digit(self.col_mask(c), d) <==> forall|i: int|
                0 <= i < 81 && col_of(i) == c ==> #[trigger] g[i] != d);
            if c == c0 && d == digit {
                assert(h[idx] == d);
            } else if has_digit(self.col_mask(c), d) {
                assert forall|i: int| 0 <= i < 81 && col_of(i) == c implies #[trigger] h[i] != d by {
                    assert(g[i] != d);
                }
            } else {
                let i = choose|i: int| 0 <= i < 81 && col_of(i) == c && #[trigger] g[i] == d;
                assert(h[i] == d);
            }
        }
        assert forall|b: int, d: int| 0 <= b < 9 && 1 <= d <= 9 implies (#[trigger] has_digit(
            after.box_mask(b),
            d,
        ) <==> forall|i: int| 0 <= i < 81 && box_of(i) == b ==> #[trigger] h[i] != d) by {
            lemma_digit_masks(self.box_mask(b), 0, 0, digit as u16, d as u16);
            assert(has_digit(self.box_mask(b), d) <==> forall|i: int|
                0 <= i < 81 && box_of(i) == b ==> #[trigger] g[i] != d);
            if b == b0 && d == digit {
                assert(h[idx] == d);
            } else if has_digit(self.box_mask(b), d) {
                assert forall|i: int| 0 <= i < 81 && box_of(i) == b implies #[trigger] h[i] != d by {
                    assert(g[i] != d);
                }
            } else {
                let i = choose|i: int| 0 <= i < 81 && box_of(i) == b && #[trigger] g[i] == d;
                assert(h[i] == d);
            }
        }
        assert forall|k: int| 0 <= k < 9 implies #[trigger] after.row_mask(k) & !ALL_DIGITS_MASK == 0 by {
            lemma_digit_masks(self.row_mask(k), 0, 0, digit as u16, 0);
        }
        assert forall|k: int| 0 <= k < 9 implies #[trigger] after.col_mask(k) & !ALL_DIGITS_MASK == 0 by {
            lemma_digit_masks(self.col_mask(k), 0, 0, digit as u16, 0);
        }
        assert forall|k: int| 0 <= k < 9 implies #[trigger] after.box_mask(k) & !ALL_DIGITS_MASK == 0 by {
            lemma_digit_masks(self.box_mask(k), 0, 0, digit as u16, 0);
        }
    }

    /// Empties cell `idx` and gives `digit` back to the masks of the cell's
    /// row, column and box. After [`Self::place`] of the same digit at an
    /// empty cell where the digit could go, the state is what it was.
    pub fn unplace(&mut self, idx: usize, digit: u8)
        requires
            idx < 81,
            digit < 16,
        ensures
            final(self).grid() == old(self).grid().update(idx as int, 0u8),
            forall|k: int|
                0 <= k < 9 ==> #[trigger] final(self).row_mask(k) == (if k == row_of(idx as int) {
                    old(self).row_mask(k) | (1u16 << digit)
                } else {
                    old(self).row_mask(k)
                }),
            forall|k: int|
                0 <= k < 9 ==> #[trigger] final(self).col_mask(k) == (if k == col_of(idx as int) {
                    old(self).col_mask(k) | (1u16 << digit)
                } else {
                    old(self).col_mask(k)
                }),
            forall|k: int|
                0 <= k < 9 ==> #[trigger] final(self).box_mask(k) == (if k == box_of(idx as int) {
                    old(self).box_mask(k) | (1u16 << digit)
                } else {
                    old(self).box_mask(k)
                }),
    {
        self.sudoku.set(idx, 0);
        let (r, c, b) = (row_index(idx), col_index(idx), box_index(idx));
        let mut row = self.rows[r];
        row.set(digit as usize);
        self.rows[r] = row;
        let mut col = self.cols[c];
        col.set(digit as usize);
        self.cols[c] = col;
        let mut bx = self.boxes[b];
        bx.set(digit as usize);
        self.boxes[b] = bx;
    }

    /// Whether cell `idx` is empty.
    pub fn is_empty(&self, idx: usize) -> (r: bool)
        requires
            idx < 81,
        ensures
            r == (self.grid()[idx as int] == 0),
    {
        self.sudoku.get(idx) == 0
    }

    /// The digits that can go to cell `idx`.
    pub fn candidates(&self, idx: usize) -> (r: Bitmask<u16>)
        requires
            idx < 81,
            self.grid()[idx as int] < 16,
        ensures
            r@ == self.candidate_mask(idx as int),
    {
        let d = self.sudoku.get(idx);
        if d != 0 {
            Bitmask::<u16>::singleton(d as usize)
        } else {
            self.rows[row_index(idx)].bitand(self.cols[col_index(idx)]).bitand(self.boxes[box_index(idx)])
        }
    }
}

/// A stage of a pipeline.
pub enum PipelineStep {
    /// Drops the grids that do not pass a test.
    Filter(Filter),
    /// Makes more grids from each grid.
    Expansion(Expansion),
}

/// A source of grids and the stages that its grids go through.
pub struct Pipeline {
    pub base: GenerationBase,
    pub steps: Vec<PipelineStep>,
}

/// What one step of a running pipeline has done.
pub enum Advance {
    /// A grid has come through every stage.
    Emit(Sudoku),
    /// A grid was dropped, or taken up by an expansion, or a search came to
    /// its end.
    Skip,
    /// The source has no more grids and every expansion is at its end.
    Done,
}

/// A pipeline at work: the search of its source, and for each expansion
/// that is at work on a grid the search for the grids that it makes.
pub struct PipelineRun {
    base: DepthFirstSearcherWithProgress<TemplateGeneratorState>,
    steps: Vec<PipelineStep>,
    searches: Vec<Option<DepthFirstSearcherWithProgress<PlusNSearchState>>>,
}

/// The count of the stages up to the innermost of the first `n` at which
/// a search is at work; 0 where none is.
pub open spec fn innermost(searches: Seq<Option<DepthFirstSearcherWithProgress<PlusNSearchState>>>, n: int) -> int
    decreases n,
{
    if n <= 0 {
        0
    } else if searches[n - 1] is Some {
        n
    } else {
        innermost(searches, n - 1)
    }
}

/// The places of the searches at work at the first `k` stages, where
/// `last` is the count of the stages up to the innermost of them.
pub open spec fn places_of(
    searches: Seq<Option<DepthFirstSearcherWithProgress<PlusNSearchState>>>,
    k: int,
    last: int,
) -> Seq<(usize, usize)>
    decreases k,
{
    if k <= 0 {
        Seq::empty()
    } else {
        places_of(searches, k - 1, last) + match searches[k - 1] {
            None => Seq::empty(),
            Some(search) => search.digits(k < last),
        }
    }
}

/// The innermost search at work is at one of the first `n` stages, and
/// there is none where no search is at work.
pub proof fn lemma_innermost(searches: Seq<Option<DepthFirstSearcherWithProgress<PlusNSearchState>>>, n: int)
    requires
        0 <= n <= searches.len(),
    ensures
        0 <= innermost(searches, n) <= n,
        innermost(searches, n) > 0 ==> searches[innermost(searches, n) - 1] is Some,
        forall|j: int| innermost(searches, n) <= j < n ==> (#[trigger] searches[j]) is None,
        (forall|j: int| 0 <= j < n ==> (#[trigger] searches[j]) is None) ==> innermost(searches, n) == 0,
    decreases n,
{
    if n > 0 {
        lemma_innermost(searches, n - 1);
        if searches[n - 1] is None {
            assert forall|j: int| innermost(searches, n) <= j < n implies (#[trigger] searches[j]) is None by {
                if j < n - 1 {
                    assert(searches[j] is None);
                }
            }
        }
    }
}

/// Stages at which no search is at work add no places.
pub proof fn lemma_places_none(
    searches: Seq<Option<DepthFirstSearcherWithProgress<PlusNSearchState>>>,
    m: int,
    k: int,
    last: int,
)
    requires
        0 <= m <= k <= searches.len(),
        forall|j: int| m <= j < k ==> (#[trigger] searches[j]) is None,
    ensures
        places_of(searches, k, last) == places_of(searches, m, last),
    decreases k - m,
{
    if m < k {
        lemma_places_none(searches, m, k - 1, last);
        assert(searches[k - 1] is None);
        assert(places_of(searches, k - 1, last) + Seq::<(usize, usize)>::empty() =~= places_of(searches, k - 1, last));
    }
}

/// The places of the searches further out than the innermost are the same
/// wherever the innermost is.
pub proof fn lemma_places_same(
    a: Seq<Option<DepthFirstSearcherWithProgress<PlusNSearchState>>>,
    b: Seq<Option<DepthFirstSearcherWithProgress<PlusNSearchState>>>,
    k: int,
    last_a: int,
    last_b: int,
)
    requires
        0 <= k <= a.len(),
        k <= b.len(),
        k < last_a,
        k < last_b,
        forall|j: int| 0 <= j < k ==> #[trigger] a[j] == b[j],
    ensures
        places_of(a, k, last_a) == places_of(b, k, last_b),
    decreases k,
{
    if k > 0 {
        lemma_places_same(a, b, k - 1, last_a, last_b);
        assert(a[k - 1] == b[k - 1]);
    }
}

/// The innermost search at work, where it is known.
pub proof fn lemma_innermost_at(
    searches: Seq<Option<DepthFirstSearcherWithProgress<PlusNSearchState>>>,
    k: int,
)
    requires
        0 <= k <= searches.len(),
        k > 0 ==> searches[k - 1] is Some,
        forall|j: int| k <= j < searches.len() ==> (#[trigger] searches[j]) is None,
    ensures
        innermost(searches, searches.len() as int) == k,
    decreases searches.len() - k,
{
    lemma_innermost_upto(searches, k, searches.len() as int);
}

proof fn lemma_innermost_upto(
    searches: Seq<Option<DepthFirstSearcherWithProgress<PlusNSearchState>>>,
    k: int,
    n: int,
)
    requires
        0 <= k <= n <= searches.len(),
        k > 0 ==> searches[k - 1] is Some,
        forall|j: int| k <= j < n ==> (#[trigger] searches[j]) is None,
    ensures
        innermost(searches, n) == k,
    decreases n - k,
{
    if k < n {
        assert(searches[n - 1] is None);
        lemma_innermost_upto(searches, k, n - 1);
    }
}

impl PipelineStep {
    /// The lists of the stage are in order.
    pub open spec fn wf(&self) -> bool {
        match self {
            PipelineStep::Filter(filter) => filter.wf(),
            PipelineStep::Expansion(expansion) => expansion.wf(),
        }
    }
}

impl Pipeline {
    /// The template and the stages are in order.
    pub open spec fn wf(&self) -> bool {
        &&& match self.base {
            GenerationBase::Template(template) => template.wf(),
        }
        &&& forall|j: int| 0 <= j < self.steps@.len() ==> (#[trigger] self.steps@[j]).wf()
    }

    /// Sets the pipeline to work.
    pub fn run(self) -> (r: PipelineRun)
        requires
            self.wf(),
        ensures
            r.wf(),
            r.stages() == self.steps@,
            r.idle(),
            r.places() == seq![(0usize, 1usize)],
            match self.base {
                GenerationBase::Template(template) => exists|start: TemplateGeneratorState| #[trigger]
                    start.fits(template.cells()) && r.source() == subtree(start, start.height() + 1),
            },
    {
        let base = self.base.iter();
        let mut searches: Vec<Option<DepthFirstSearcherWithProgress<PlusNSearchState>>> = Vec::new();
        let mut j: usize = 0;
        while j < self.steps.len()
            invariant
                j <= self.steps@.len(),
                searches@.len() == j,
                forall|k: int| 0 <= k < j ==> (#[trigger] searches@[k]) is None,
            decreases self.steps@.len() - j,
        {
            searches.push(None);
            j += 1;
        }
        proof {
            lemma_innermost(searches@, searches@.len() as int);
            base.lemma_not_begun(false);
        }
        let r = PipelineRun { base, steps: self.steps, searches };
        proof {
            r.lemma_idle_places();
            match self.base {
                GenerationBase::Template(template) => {
                    assert(base.start().fits(template.cells()));
                },
            }
        }
        r
    }
}

impl PipelineRun {
    /// The stages of the pipeline.
    pub closed spec fn stages(&self) -> Seq<PipelineStep> {
        self.steps@
    }

    /// The grids that the source still yields, in their order.
    pub closed spec fn source(&self) -> Seq<RegionMaskedSudoku> {
        self.base.remaining()
    }

    /// Whether no expansion is at work on a grid.
    pub closed spec fn idle(&self) -> bool {
        forall|k: int| 0 <= k < self.searches@.len() ==> (#[trigger] self.searches@[k]) is None
    }

    /// How much of the work is done, as the places of a number between 0
    /// and 1: the places of the search of the source, then those of each
    /// search that is at work, the outermost first. The state at which a
    /// search is counts as done for the innermost search only.
    pub closed spec fn places(&self) -> Seq<(usize, usize)> {
        let last = innermost(self.searches@, self.searches@.len() as int);
        self.base.digits(last > 0) + places_of(self.searches@, last, last)
    }

    /// While no expansion is at work, the places are those of the source.
    proof fn lemma_idle_places(&self)
        requires
            self.idle(),
        ensures
            self.places() == self.base.digits(false),
    {
        lemma_innermost(self.searches@, self.searches@.len() as int);
        assert(self.base.digits(false) + Seq::<(usize, usize)>::empty() =~= self.base.digits(false));
    }

    /// The grids that the innermost search at work still yields, or those
    /// of the source while no expansion is at work, in their order.
    pub closed spec fn upcoming(&self) -> Seq<RegionMaskedSudoku> {
        let last = innermost(self.searches@, self.searches@.len() as int);
        if last == 0 {
            self.base.remaining()
        } else {
            match self.searches@[last - 1] {
                Some(search) => search.remaining(),
                None => Seq::empty(),
            }
        }
    }

    /// How many stages there are up to the innermost at which a search is
    /// at work; 0 while none is.
    pub closed spec fn depth(&self) -> int {
        innermost(self.searches@, self.searches@.len() as int)
    }

    /// Whether `after` has the stages of this pipeline once `grid` has
    /// gone through them in their order from stage `from` up to stage
    /// `stop`, with `r` as what came of it: each stage before `stop` is a
    /// filter that has said that the grid passes; the stage at `stop` is a
    /// filter that has said that it does not, or an expansion, which takes
    /// the grid up, and the grid is skipped; or no stage is left, and the
    /// grid is emitted. The other stages are as they were.
    pub open spec fn passed_on(&self, after: &Self, grid: RegionMaskedSudoku, from: int, stop: int, r: Advance) -> bool {
        &&& 0 <= from <= stop <= self.stages().len()
        &&& after.stages().len() == self.stages().len()
        &&& forall|i: int|
            from <= i < stop ==> match (#[trigger] self.stages()[i], after.stages()[i]) {
                (PipelineStep::Filter(filter), PipelineStep::Filter(then)) => filter.said(grid, true, &then),
                _ => false,
            }
        &&& forall|i: int|
            0 <= i < self.stages().len() && (i < from || i > stop) ==> #[trigger] after.stages()[i] == self.stages()[i]
        &&& if stop == self.stages().len() {
            r == Advance::Emit(grid.board()) && after.depth() == self.depth()
        } else {
            r == Advance::Skip && match (self.stages()[stop], after.stages()[stop]) {
                (PipelineStep::Filter(filter), PipelineStep::Filter(then)) => filter.said(grid, false, &then)
                    && after.depth() == self.depth(),
                (PipelineStep::Expansion(expansion), PipelineStep::Expansion(then)) => then == expansion && after.depth()
                    == stop + 1,
                _ => false,
            }
        }
    }

    /// Whether every stage is a filter.
    pub open spec fn only_filters(&self) -> bool {
        forall|j: int| 0 <= j < self.stages().len() ==> (#[trigger] self.stages()[j]) is Filter
    }

    /// The searches and the stages are in order, a search is at work at
    /// the stages of expansions only, and every search but the innermost is
    /// at a state from which it goes no deeper.
    pub closed spec fn wf(&self) -> bool {
        self.wf_core() && self.leaves()
    }

    /// Whether every search but the innermost is at a state from which it
    /// goes no deeper.
    pub closed spec fn leaves(&self) -> bool {
        let last = innermost(self.searches@, self.searches@.len() as int);
        &&& last > 0 ==> self.base.at_leaf()
        &&& forall|k: int|
            0 <= k < last - 1 ==> match #[trigger] self.searches@[k] {
                None => true,
                Some(search) => search.at_leaf(),
            }
    }

    /// The searches and the stages are in order, and a search is at work
    /// at the stages of expansions only.
    pub closed spec fn wf_core(&self) -> bool {
        &&& self.base.wf()
        &&& self.searches@.len() == self.steps@.len()
        &&& forall|j: int| 0 <= j < self.steps@.len() ==> (#[trigger] self.steps@[j]).wf()
        &&& forall|k: int|
            0 <= k < self.searches@.len() ==> match #[trigger] self.searches@[k] {
                None => true,
                Some(search) => search.wf() && (self.steps@[k] is Expansion),
            }
    }

    /// Whether `after` is this pipeline once `grid` has gone through the
    /// stages from `from` up to `stop`, with `r` as what came of it: the
    /// stages before `stop` are filters that the grid has passed; at `stop`
    /// the grid is dropped by a filter or taken up by an expansion, whose
    /// search then starts on it, or no stage is left and the grid is
    /// emitted; the other stages and searches are as they were.
    spec fn pushed(&self, after: &Self, grid: RegionMaskedSudoku, from: int, stop: int, r: Advance) -> bool {
        &&& from <= stop <= self.steps@.len()
        &&& after.steps@.len() == self.steps@.len()
        &&& after.base == self.base
        &&& forall|i: int|
            from <= i < stop ==> match (#[trigger] self.steps@[i], after.steps@[i]) {
                (PipelineStep::Filter(filter), PipelineStep::Filter(then)) => filter.said(grid, true, &then),
                _ => false,
            }
        &&& forall|i: int|
            0 <= i < self.steps@.len() && (i < from || i > stop) ==> #[trigger] after.steps@[i] == self.steps@[i]
        &&& if stop == self.steps@.len() {
            r == Advance::Emit(grid.board()) && after.searches@ == self.searches@
        } else {
            r == Advance::Skip && match (self.steps@[stop], after.steps@[stop]) {
                (PipelineStep::Filter(filter), PipelineStep::Filter(then)) => filter.said(grid, false, &then)
                    && after.searches@ == self.searches@,
                (PipelineStep::Expansion(expansion), PipelineStep::Expansion(then)) => then == expansion && match after.searches@[stop] {
                    Some(search) => after.searches@ == self.searches@.update(stop, Some(search)) && !search.begun()
                        && search.start().grid() == grid && search.start().pending() is None && search.start().placed()
                        == 0,
                    None => false,
                },
                _ => false,
            }
        }
    }

    /// How deep the searches are at work once a grid has gone through the
    /// stages from the innermost search on.
    proof fn lemma_pushed_depth(&self, after: &Self, grid: RegionMaskedSudoku, from: int, stop: int, r: Advance)
        requires
            self.pushed(after, grid, from, stop, r),
            self.depth() == from,
            self.searches@.len() == self.steps@.len(),
        ensures
            after.depth() == (if stop < self.steps@.len() && (self.steps@[stop] is Expansion) {
                stop + 1
            } else {
                from
            }),
    {
        lemma_innermost(self.searches@, self.searches@.len() as int);
        if stop < self.steps@.len() && (self.steps@[stop] is Expansion) {
            assert forall|j: int| stop + 1 <= j < after.searches@.len() implies (#[trigger] after.searches@[j]) is None by {
                assert(self.searches@[j] is None);
            }
            lemma_innermost_at(after.searches@, stop + 1);
        }
    }

    /// Takes the grid through the stages from `from` on: until a filter
    /// drops it, an expansion takes it up, or no stage is left.
    fn push_through(&mut self, grid: RegionMaskedSudoku, from: usize) -> (r: Advance)
        requires
            old(self).wf_core(),
            grid.wf(),
            from <= old(self).stages().len(),
        ensures
            exists|stop: int| #[trigger] old(self).pushed(final(self), grid, from as int, stop, r),
            final(self).wf_core(),
            final(self).searches@ == old(self).searches@ || exists|j: int|
                from <= j < old(self).searches@.len() && (#[trigger] final(self).searches@[j]) is Some
                    && !final(self).searches@[j].unwrap().begun()
                    && final(self).searches@ == old(self).searches@.update(j, final(self).searches@[j]),
            r is Emit ==> final(self).searches@ == old(self).searches@,
            final(self).source() == old(self).source(),
            final(self).base == old(self).base,
            final(self).stages().len() == old(self).stages().len(),
            forall|j: int|
                0 <= j < old(self).stages().len() ==> ((#[trigger] final(self).stages()[j]) is Filter) == (old(self).stages()[j] is Filter),
            !(r is Done),
            r matches Advance::Emit(found) ==> found@ == grid.grid(),
            old(self).only_filters() && old(self).idle() ==> final(self).idle(),
    {
        let mut j = from;
        while j < self.steps.len()
            invariant
                from <= j <= self.steps@.len(),
                self.wf_core(),
                grid.wf(),
                self.base == old(self).base,
                self.searches@ == old(self).searches@,
                self.steps@.len() == old(self).steps@.len(),
                forall|k: int|
                    0 <= k < old(self).steps@.len() ==> ((#[trigger] self.steps@[k]) is Filter) == (old(self).steps@[k]
                        is Filter),
                old(self).only_filters() && old(self).idle() ==> self.idle(),
                forall|i: int|
                    from <= i < j ==> match (#[trigger] old(self).steps@[i], self.steps@[i]) {
                        (PipelineStep::Filter(filter), PipelineStep::Filter(then)) => filter.said(grid, true, &then),
                        _ => false,
                    },
                forall|i: int|
                    0 <= i < self.steps@.len() && (i < from || i >= j) ==> #[trigger] self.steps@[i]
                        == old(self).steps@[i],
            decreases self.steps@.len() - j,
        {
            let ghost before = *self;
            let step = self.steps.remove(j);
            proof {
                assert(step == before.steps@[j as int]);
                assert(before.steps@[j as int] == old(self).steps@[j as int]);
            }
            match step {
                PipelineStep::Filter(mut filter) => {
                    let keep = filter.matches(&grid);
                    self.steps.insert(j, PipelineStep::Filter(filter));
                    proof {
                        assert(self.steps@ =~= before.steps@.update(j as int, PipelineStep::Filter(filter)));
                        assert forall|k: int| 0 <= k < self.steps@.len() implies (#[trigger] self.steps@[k]).wf() by {
                            if k != j {
                                assert(self.steps@[k] == before.steps@[k]);
                            }
                        }
                        assert forall|k: int| 0 <= k < self.searches@.len() implies match #[trigger] self.searches@[k] {
                            None => true,
                            Some(search) => search.wf() && (self.steps@[k] is Expansion),
                        } by {
                            if k != j {
                                assert(self.steps@[k] == before.steps@[k]);
                            }
                        }
                    }
                    proof {
                        assert forall|i: int|
                            0 <= i < self.steps@.len() && (i < from || i > j) implies #[trigger] self.steps@[i]
                            == old(self).steps@[i] by {
                            assert(self.steps@[i] == before.steps@[i]);
                        }
                        assert forall|i: int| from <= i < j implies match (#[trigger] old(self).steps@[i], self.steps@[i]) {
                            (PipelineStep::Filter(filter), PipelineStep::Filter(then)) => filter.said(grid, true, &then),
                            _ => false,
                        } by {
                            assert(self.steps@[i] == before.steps@[i]);
                        }
                    }
                    if !keep {
                        proof {
                            assert(old(self).pushed(self, grid, from as int, j as int, Advance::Skip));
                        }
                        return Advance::Skip;
                    }
                },
                PipelineStep::Expansion(expansion) => {
                    let search = expansion.expand(grid);
                    self.steps.insert(j, PipelineStep::Expansion(expansion));
                    let _ = self.searches.remove(j);
                    self.searches.insert(j, Some(search));
                    proof {
                        assert(self.searches@ =~= before.searches@.update(j as int, Some(search)));
                        assert(self.searches@[j as int] == Some(search));
                        assert(self.steps@ =~= before.steps@);
                        assert(!before.only_filters()) by {
                            assert(before.stages()[j as int] is Expansion);
                        }
                        assert forall|k: int| 0 <= k < self.searches@.len() implies match #[trigger] self.searches@[k] {
                            None => true,
                            Some(search) => search.wf() && (self.steps@[k] is Expansion),
                        } by {
                            if k != j {
                                assert(self.searches@[k] == before.searches@[k]);
                            }
                        }
                        assert(old(self).pushed(self, grid, from as int, j as int, Advance::Skip));
                    }
                    return Advance::Skip;
                },
            }
            j += 1;
        }
        let r = Advance::Emit(*grid.sudoku());
        proof {
            assert(old(self).pushed(self, grid, from as int, j as int, r));
        }
        r
    }
}

impl PipelineRun {
    /// One step of the pipeline: the innermost search that is at work, or
    /// the source where none is, yields its next grid, which goes through
    /// the stages that follow. With filters only, each step takes the next
    /// grid of the source, and a grid that is emitted is that grid: what the
    /// pipeline emits is what the source yields, in its order, without the
    /// grids that a filter drops.
    pub fn advance(&mut self) -> (r: Advance)
        requires
            old(self).wf(),
        ensures
            final(self).wf(),
            final(self).stages().len() == old(self).stages().len(),
            forall|j: int|
                0 <= j < old(self).stages().len() ==> ((#[trigger] final(self).stages()[j]) is Filter) == (old(self).stages()[j] is Filter),
            final(self).source() == old(self).source() || (old(self).source().len() > 0 && final(self).source() == old(self).source().drop_first()),
            old(self).only_filters() && old(self).idle() ==> final(self).idle() && match r {
                Advance::Emit(found) => old(self).source().len() > 0
                    && found@ == old(self).source()[0].grid()
                    && final(self).source() == old(self).source().drop_first(),
                Advance::Skip => old(self).source().len() > 0 && final(self).source() == old(self).source().drop_first(),
                Advance::Done => old(self).source().len() == 0 && final(self).source().len() == 0,
            },
            match r {
                Advance::Emit(found) => old(self).upcoming().len() > 0 && found@ == old(self).upcoming()[0].grid(),
                Advance::Skip => !old(self).idle() || old(self).source().len() > 0,
                Advance::Done => old(self).idle() && old(self).source().len() == 0,
            },
            !old(self).idle() ==> final(self).source() == old(self).source(),
            old(self).idle() && !(r is Done) ==> final(self).source() == old(self).source().drop_first(),
            old(self).upcoming().len() > 0 ==> exists|stop: int| #[trigger]
                old(self).passed_on(final(self), old(self).upcoming()[0], old(self).depth(), stop, r),
            old(self).upcoming().len() == 0 ==> r == (if old(self).idle() {
                Advance::Done
            } else {
                Advance::Skip
            }) && final(self).stages() == old(self).stages(),
            digits_le(old(self).places(), final(self).places()),
            r is Done ==> final(self).places() == seq![(1usize, 1usize)],
    {
        // the innermost search that is at work
        let mut k = self.searches.len();
        while k > 0 && self.searches[k - 1].is_none()
            invariant
                k <= self.searches@.len(),
                forall|j: int| k <= j < self.searches@.len() ==> (#[trigger] self.searches@[j]) is None,
            decreases k,
        {
            k -= 1;
        }
        proof {
            lemma_innermost_at(self.searches@, k as int);
        }
        if k == 0 {
            self.advance_source()
        } else {
            self.advance_search(k)
        }
    }

    /// One step of the pipeline while no expansion is at work: the source
    /// yields its next grid.
    fn advance_source(&mut self) -> (r: Advance)
        requires
            old(self).wf(),
            old(self).idle(),
        ensures
            final(self).wf(),
            final(self).stages().len() == old(self).stages().len(),
            forall|j: int|
                0 <= j < old(self).stages().len() ==> ((#[trigger] final(self).stages()[j]) is Filter) == (old(self).stages()[j] is Filter),
            old(self).only_filters() ==> final(self).idle(),
            match r {
                Advance::Emit(found) => old(self).source().len() > 0
                    && found@ == old(self).source()[0].grid()
                    && final(self).source() == old(self).source().drop_first(),
                Advance::Skip => old(self).source().len() > 0 && final(self).source() == old(self).source().drop_first(),
                Advance::Done => old(self).source().len() == 0 && final(self).source().len() == 0,
            },
            r matches Advance::Emit(found) ==> old(self).upcoming().len() > 0 && found@ == old(self).upcoming()[0].grid(),
            old(self).upcoming().len() > 0 ==> exists|stop: int| #[trigger]
                old(self).passed_on(final(self), old(self).upcoming()[0], 0, stop, r),
            old(self).upcoming().len() == 0 ==> r is Done && final(self).stages() == old(self).stages(),
            old(self).depth() == 0,
            digits_le(old(self).places(), final(self).places()),
            r is Done ==> final(self).places() == seq![(1usize, 1usize)],
    {
        let ghost before = *self;
        proof {
            self.lemma_idle_places();
            lemma_innermost(self.searches@, self.searches@.len() as int);
        }
        match self.base.next() {
            None => {
                proof {
                    self.lemma_idle_places();
                    lemma_innermost(self.searches@, self.searches@.len() as int);
                    assert(self.wf_core());
                    assert(self.leaves());
                }
                Advance::Done
            },
            Some(grid) => {
                proof {
                    self.base.current().lemma_grid_wf();
                    self.base.current().lemma_emits_leaf();
                }
                let ghost taken = *self;
                let r = self.push_through(grid, 0);
                proof {
                    if before.only_filters() {
                        assert(taken.only_filters());
                    }
                    assert(taken.steps == before.steps);
                    assert(grid == before.upcoming()[0]);
                    let stop = choose|stop: int| #[trigger] taken.pushed(self, grid, 0, stop, r);
                    taken.lemma_pushed_depth(self, grid, 0, stop, r);
                    assert(before.passed_on(self, grid, 0, stop, r));
                    let n = self.searches@.len() as int;
                    if self.searches@ == taken.searches@ {
                        lemma_innermost(self.searches@, n);
                        self.lemma_idle_places();
                        assert(self.leaves());
                    } else {
                        let j = choose|j: int|
                            0 <= j < taken.searches@.len() && (#[trigger] self.searches@[j]) is Some
                                && !self.searches@[j].unwrap().begun() && self.searches@ == taken.searches@.update(
                                j,
                                self.searches@[j],
                            );
                        let fresh = self.searches@[j].unwrap();
                        lemma_innermost_at(self.searches@, j + 1);
                        lemma_places_none(self.searches@, 0, j, j + 1);
                        fresh.lemma_not_begun(false);
                        let tail = places_of(self.searches@, j + 1, j + 1);
                        assert(tail =~= seq![(0usize, 1usize)]);
                        lemma_digits_le_extend(self.base.digits(true), tail);
                        lemma_digits_le_trans(before.places(), self.base.digits(true), self.places());
                        assert(self.base.at_leaf());
                        assert forall|i: int| 0 <= i < j implies match #[trigger] self.searches@[i] {
                            None => true,
                            Some(search) => search.at_leaf(),
                        } by {
                            assert(self.searches@[i] == taken.searches@[i]);
                            assert(taken.searches@[i] is None);
                        }
                        assert(self.leaves());
                    }
                }
                r
            },
        }
    }

    /// One step of the pipeline while the search at stage `k - 1` is the
    /// innermost that is at work: that search yields its next grid.
    fn advance_search(&mut self, k: usize) -> (r: Advance)
        requires
            old(self).wf(),
            0 < k <= old(self).searches@.len(),
            innermost(old(self).searches@, old(self).searches@.len() as int) == k,
        ensures
            final(self).wf(),
            final(self).stages().len() == old(self).stages().len(),
            forall|j: int|
                0 <= j < old(self).stages().len() ==> ((#[trigger] final(self).stages()[j]) is Filter) == (old(self).stages()[j] is Filter),
            final(self).source() == old(self).source(),
            !old(self).idle(),
            !(r is Done),
            r matches Advance::Emit(found) ==> old(self).upcoming().len() > 0 && found@ == old(self).upcoming()[0].grid(),
            old(self).upcoming().len() > 0 ==> exists|stop: int| #[trigger]
                old(self).passed_on(final(self), old(self).upcoming()[0], k as int, stop, r),
            old(self).upcoming().len() == 0 ==> r is Skip && final(self).stages() == old(self).stages(),
            digits_le(old(self).places(), final(self).places()),
    {
        let ghost before = *self;
        let ghost n = self.searches@.len() as int;
        proof {
            lemma_innermost(before.searches@, n);
        }
        let slot = self.searches.remove(k - 1);
        let mut search = slot.unwrap();
        let ghost was = search;
        proof {
            assert(before.searches@[k - 1] == slot);
        }
        let ghost outer = places_of(before.searches@, k - 1, k as int);
        proof {
            assert(before.places() =~= before.base.digits(true) + (outer + was.digits(false)));
        }
        let found = search.next();
        match found {
            None => {
                self.searches.insert(k - 1, None);
                proof {
                    assert(self.searches@ =~= before.searches@.update(k - 1, None));
                    assert forall|j: int| 0 <= j < self.searches@.len() implies match #[trigger] self.searches@[j] {
                        None => true,
                        Some(search) => search.wf() && (self.steps@[j] is Expansion),
                    } by {
                        if j != k - 1 {
                            assert(self.searches@[j] == before.searches@[j]);
                        }
                    }
                    before.lemma_search_done(self, k as int);
                }
                Advance::Skip
            },
            Some(grid) => {
                proof {
                    search.current().lemma_grid_wf();
                }
                self.searches.insert(k - 1, Some(search));
                proof {
                    assert(self.searches@ =~= before.searches@.update(k - 1, Some(search)));
                    assert forall|j: int| 0 <= j < self.searches@.len() implies match #[trigger] self.searches@[j] {
                        None => true,
                        Some(search) => search.wf() && (self.steps@[j] is Expansion),
                    } by {
                        if j != k - 1 {
                            assert(self.searches@[j] == before.searches@[j]);
                        }
                    }
                    assert(self.wf_core());
                }
                let ghost yielded = *self;
                let r = self.push_through(grid, k);
                proof {
                    before.lemma_search_on(&yielded, self, k as int);
                    assert(yielded.steps == before.steps);
                    assert(grid == before.upcoming()[0]);
                    lemma_innermost_at(yielded.searches@, k as int);
                    let stop = choose|stop: int| #[trigger] yielded.pushed(self, grid, k as int, stop, r);
                    yielded.lemma_pushed_depth(self, grid, k as int, stop, r);
                    assert(before.passed_on(self, grid, k as int, stop, r));
                }
                r
            },
        }
    }

    /// The progress does not fall when the innermost search, at stage
    /// `k - 1`, comes to its end.
    proof fn lemma_search_done(&self, after: &Self, k: int)
        requires
            self.wf(),
            0 < k <= self.searches@.len(),
            innermost(self.searches@, self.searches@.len() as int) == k,
            after.base == self.base,
            after.steps == self.steps,
            after.searches@ == self.searches@.update(k - 1, None),
            after.wf_core(),
        ensures
            after.wf(),
            digits_le(self.places(), after.places()),
    {
        let (a, b) = (self.searches@, after.searches@);
        let n = a.len() as int;
        lemma_innermost(a, n);
        let was = a[k - 1].unwrap();
        let l = innermost(a, k - 1);
        lemma_innermost(a, k - 1);
        assert forall|j: int| l <= j < n implies (#[trigger] b[j]) is None by {
            if j < k - 1 {
                assert(a[j] is None);
            }
        }
        if l > 0 {
            assert(b[l - 1] == a[l - 1]);
        }
        lemma_innermost_at(b, l);
        let tail = places_of(a, k - 1, k) + was.digits(false);
        assert(self.places() =~= self.base.digits(true) + tail);
        if l == 0 {
            assert(after.places() =~= after.base.digits(false));
            self.base.lemma_leaf_closed(tail);
        } else {
            let x = a[l - 1].unwrap();
            assert(match a[l - 1] {
                None => true,
                Some(search) => search.at_leaf(),
            });
            assert(match a[l - 1] {
                None => true,
                Some(search) => search.wf() && (self.steps@[l - 1] is Expansion),
            });
            let front = places_of(a, l - 1, k);
            lemma_places_none(a, l, k - 1, k);
            lemma_places_same(a, b, l - 1, k, l);
            let prefix = self.base.digits(true) + front;
            assert(self.places() =~= prefix + ((x.digits(true) + was.digits(false))));
            assert(after.places() =~= prefix + x.digits(false));
            x.lemma_leaf_closed(was.digits(false));
            lemma_digits_le_prefix(prefix, x.digits(true) + was.digits(false), x.digits(false));
            assert forall|j: int| 0 <= j < l - 1 implies match #[trigger] b[j] {
                None => true,
                Some(search) => search.at_leaf(),
            } by {
                assert(b[j] == a[j]);
            }
        }
    }

    /// The progress does not fall when the innermost search, at stage
    /// `k - 1`, yields a grid that goes on through the stages that follow:
    /// `mid` is the pipeline once the search has yielded the grid, `after`
    /// once the grid has gone on.
    proof fn lemma_search_on(&self, mid: &Self, after: &Self, k: int)
        requires
            self.wf(),
            0 < k <= self.searches@.len(),
            innermost(self.searches@, self.searches@.len() as int) == k,
            mid.base == self.base,
            after.base == self.base,
            mid.searches@[k - 1] is Some,
            mid.searches@ == self.searches@.update(k - 1, mid.searches@[k - 1]),
            mid.searches@[k - 1].unwrap().at_leaf(),
            digits_le(self.searches@[k - 1].unwrap().digits(false), mid.searches@[k - 1].unwrap().digits(false)),
            digits_le(self.searches@[k - 1].unwrap().digits(false), mid.searches@[k - 1].unwrap().digits(true)),
            after.wf_core(),
            after.searches@ == mid.searches@ || exists|j: int|
                k <= j < mid.searches@.len() && (#[trigger] after.searches@[j]) is Some
                    && !after.searches@[j].unwrap().begun()
                    && after.searches@ == mid.searches@.update(j, after.searches@[j]),
        ensures
            after.wf(),
            digits_le(self.places(), after.places()),
    {
        let (a, m, b) = (self.searches@, mid.searches@, after.searches@);
        let n = a.len() as int;
        lemma_innermost(a, n);
        let was = a[k - 1].unwrap();
        let now = m[k - 1].unwrap();
        let front = places_of(a, k - 1, k);
        let prefix = self.base.digits(true) + front;
        assert(self.places() =~= prefix + was.digits(false));
        if b == m {
            lemma_innermost_at(b, k);
            lemma_places_same(a, b, k - 1, k, k);
            assert(after.places() =~= prefix + now.digits(false));
            lemma_digits_le_prefix(prefix, was.digits(false), now.digits(false));
            assert forall|j: int| 0 <= j < k - 1 implies match #[trigger] b[j] {
                None => true,
                Some(search) => search.at_leaf(),
            } by {
                assert(b[j] == a[j]);
            }
        } else {
            let j = choose|j: int|
                k <= j < m.len() && (#[trigger] b[j]) is Some && !b[j].unwrap().begun() && b == m.update(j, b[j]);
            let fresh = b[j].unwrap();
            assert(match b[j] {
                None => true,
                Some(search) => search.wf() && (after.steps@[j] is Expansion),
            });
            lemma_innermost_at(b, j + 1);
            lemma_places_none(b, k, j, j + 1);
            lemma_places_same(a, b, k - 1, k, j + 1);
            fresh.lemma_not_begun(false);
            assert(b[k - 1] == m[k - 1]);
            assert(places_of(b, k, j + 1) =~= front + now.digits(true));
            assert(after.places() =~= prefix + (now.digits(true) + seq![(0usize, 1usize)]));
            lemma_digits_le_extend(now.digits(true), seq![(0usize, 1usize)]);
            lemma_digits_le_trans(was.digits(false), now.digits(true), now.digits(true) + seq![(0usize, 1usize)]);
            lemma_digits_le_prefix(prefix, was.digits(false), now.digits(true) + seq![(0usize, 1usize)]);
            assert forall|i: int| 0 <= i < j implies match #[trigger] b[i] {
                None => true,
                Some(search) => search.at_leaf(),
            } by {
                if i < k - 1 {
                    assert(b[i] == a[i]);
                } else if i == k - 1 {
                } else {
                    assert(b[i] == m[i]);
                    assert(a[i] is None);
                }
            }
        }
    }

    /// How much of the work is done: see [`Self::places`].
    pub fn progress(&self) -> (r: Vec<(usize, usize)>)
        requires
            self.wf(),
        ensures
            r@ == self.places(),
            r@.len() >= 1,
            digits_ok(r@),
    {
        let mut last = self.searches.len();
        while last > 0 && self.searches[last - 1].is_none()
            invariant
                last <= self.searches@.len(),
                innermost(self.searches@, self.searches@.len() as int) == innermost(self.searches@, last as int),
            decreases last,
        {
            last -= 1;
        }
        let mut out = self.base.progress(last > 0);
        let mut k: usize = 0;
        proof {
            assert(out@ + places_of(self.searches@, 0, last as int) =~= out@);
        }
        while k < last
            invariant
                k <= last <= self.searches@.len(),
                self.wf(),
                out@.len() >= 1,
                digits_ok(out@),
                last as int == innermost(self.searches@, self.searches@.len() as int),
                out@ == self.base.digits(last > 0) + places_of(self.searches@, k as int, last as int),
            decreases last - k,
        {
            let ghost so_far = places_of(self.searches@, k as int, last as int);
            match &self.searches[k] {
                None => {
                    proof {
                        assert(so_far + Seq::<(usize, usize)>::empty() =~= so_far);
                    }
                },
                Some(search) => {
                    let mut digits = search.progress(k + 1 < last);
                    let ghost before = out@;
                    let ghost added = digits@;
                    out.append(&mut digits);
                    proof {
                        assert(out@ =~= self.base.digits(last > 0) + (so_far + added));
                        assert forall|i: int| 0 <= i < out@.len() implies (#[trigger] out@[i]).0 <= out@[i].1 && out@[i].1
                            >= 1 by {
                            if i < before.len() {
                                assert(out@[i] == before[i]);
                            } else {
                                assert(out@[i] == added[i - before.len()]);
                            }
                        }
                    }
                },
            }
            k += 1;
        }
        out
    }
}

} // verus!
