//! The 9×9 grid and what it means for a grid to be valid or solved.

use vstd::prelude::*;
use vstd::string::StrSliceExecFns;
use crate::band_lemmas::{lemma_band_cell, lemma_nine_distinct};

verus! {

/// The row of cell `i`.
pub open spec fn row_of(i: int) -> int {
    i / 9
}

/// The column of cell `i`.
pub open spec fn col_of(i: int) -> int {
    i % 9
}

/// The box of cell `i`.
pub open spec fn box_of(i: int) -> int {
    (i / 27) * 3 + (i % 9) / 3
}

/// Two different cells that share a row, a column or a box.
pub open spec fn peers(i: int, j: int) -> bool {
    i != j && (row_of(i) == row_of(j) || col_of(i) == col_of(j) || box_of(i) == box_of(j))
}

/// 81 cells, each 0 to 9, no placed digit repeated among peers.
pub open spec fn is_valid_grid(g: Seq<u8>) -> bool {
    &&& g.len() == 81
    &&& forall|i: int| 0 <= i < 81 ==> #[trigger] g[i] <= 9
    &&& forall|i: int, j: int|
        0 <= i < 81 && 0 <= j < 81 && peers(i, j) && #[trigger] g[i] != 0 ==> g[i] != #[trigger] g[j]
}

/// A valid grid without an unknown cell.
pub open spec fn is_solution(g: Seq<u8>) -> bool {
    &&& is_valid_grid(g)
    &&& forall|i: int| 0 <= i < 81 ==> #[trigger] g[i] != 0
}

/// `s` is a solution that keeps every placed digit of `g`.
pub open spec fn is_completion(g: Seq<u8>, s: Seq<u8>) -> bool {
    &&& g.len() == 81
    &&& is_solution(s)
    &&& forall|i: int| 0 <= i < 81 && #[trigger] g[i] != 0 ==> s[i] == g[i]
}

/// The digit at the `k`-th cell of row `r`.
pub open spec fn row_digit(s: Seq<u8>, r: int, k: int) -> u8 {
    s[9 * r + k]
}

/// A solution holds every digit in every row.
pub proof fn lemma_solution_row(s: Seq<u8>, r: int, d: u8) -> (c: int)
    requires
        is_solution(s),
        0 <= r < 9,
        1 <= d <= 9,
    ensures
        0 <= c < 9,
        s[9 * r + c] == d,
{
    assert forall|k: int, l: int| 0 <= k < 9 && 0 <= l < 9 && k != l implies #[trigger] row_digit(s, r, k) != #[trigger] row_digit(s, r, l) by {
        assert(peers(9 * r + k, 9 * r + l));
        assert(s[9 * r + k] != 0);
    }
    assert forall|k: int| 0 <= k < 9 implies 1 <= #[trigger] row_digit(s, r, k) <= 9 by {
        assert(s[9 * r + k] != 0);
        assert(s[9 * r + k] <= 9);
    }
    lemma_nine_distinct(
        row_digit(s, r, 0), row_digit(s, r, 1), row_digit(s, r, 2), row_digit(s, r, 3), row_digit(s, r, 4),
        row_digit(s, r, 5), row_digit(s, r, 6), row_digit(s, r, 7), row_digit(s, r, 8), d,
    );
    if row_digit(s, r, 0) == d { 0 } else if row_digit(s, r, 1) == d { 1 }
    else if row_digit(s, r, 2) == d { 2 } else if row_digit(s, r, 3) == d { 3 }
    else if row_digit(s, r, 4) == d { 4 } else if row_digit(s, r, 5) == d { 5 }
    else if row_digit(s, r, 6) == d { 6 } else if row_digit(s, r, 7) == d { 7 }
    else { 8 }
}

/// Where a solution has digit `v` in band `k`: once in each of the three
/// rows, in three different boxes, and in columns where the other bands do
/// not have it. The cells are counted from the start of the band.
#[verifier::rlimit(60)]
pub proof fn lemma_solution_band(s: Seq<u8>, v: u8, k: int) -> (r: (u32, u32, u32))
    requires
        is_solution(s),
        1 <= v <= 9,
        0 <= k < 3,
    ensures
        r.0 < 9,
        9 <= r.1 < 18,
        18 <= r.2 < 27,
        s[27 * k + r.0] == v,
        s[27 * k + r.1] == v,
        s[27 * k + r.2] == v,
        (r.0 % 9) / 3 != (r.1 % 9) / 3,
        (r.0 % 9) / 3 != (r.2 % 9) / 3,
        (r.1 % 9) / 3 != (r.2 % 9) / 3,
        forall|i: int|
            27 * k <= i < 27 * k + 27 && #[trigger] s[i] == v ==> i == 27 * k + r.0 || i == 27 * k + r.1 || i == 27
                * k + r.2,
        forall|i: int|
            0 <= i < 81 && i / 27 != k && #[trigger] s[i] == v ==> i % 9 != r.0 % 9 && i % 9 != r.1 % 9 && i % 9
                != r.2 % 9,
{
    let a = lemma_solution_row(s, 3 * k, v);
    let b = lemma_solution_row(s, 3 * k + 1, v);
    let c = lemma_solution_row(s, 3 * k + 2, v);
    let (i0, i1, i2) = (27 * k + a, 27 * k + 9 + b, 27 * k + 18 + c);
    lemma_band_cell(i0 as u32);
    lemma_band_cell(i1 as u32);
    lemma_band_cell(i2 as u32);
    assert(s[i0] == v && s[i1] == v && s[i2] == v);
    assert(s[i0] != 0);
    if (a / 3) == (b / 3) {
        assert(peers(i0, i1));
    }
    if (a / 3) == (c / 3) {
        assert(peers(i0, i2));
    }
    if (b / 3) == (c / 3) {
        assert(s[i1] != 0);
        assert(peers(i1, i2));
    }
    let r = (a as u32, (9 + b) as u32, (18 + c) as u32);
    assert forall|i: int| 27 * k <= i < 27 * k + 27 && #[trigger] s[i] == v implies i == i0 || i == i1 || i == i2 by {
        lemma_band_cell(i as u32);
        assert(s[i] != 0);
        if i != i0 && i != i1 && i != i2 {
            if i / 9 == 3 * k {
                assert(peers(i, i0));
            } else if i / 9 == 3 * k + 1 {
                assert(peers(i, i1));
            } else {
                assert(i / 9 == 3 * k + 2);
                assert(peers(i, i2));
            }
        }
    }
    assert forall|i: int| 0 <= i < 81 && i / 27 != k && #[trigger] s[i] == v implies i % 9 != r.0 % 9 && i % 9
        != r.1 % 9 && i % 9 != r.2 % 9 by {
        lemma_band_cell(i as u32);
        assert(s[i] != 0);
        if i % 9 == a {
            assert(peers(i, i0));
        }
        if i % 9 == b {
            assert(peers(i, i1));
        }
        if i % 9 == c {
            assert(peers(i, i2));
        }
    }
    r
}

/// The region of cell `i`: its row where `kind` is 0, its column where
/// `kind` is 1, its box otherwise.
pub open spec fn region_of(kind: int, i: int) -> int {
    if kind == 0 {
        row_of(i)
    } else if kind == 1 {
        col_of(i)
    } else {
        box_of(i)
    }
}

/// The place of cell `i` in its region, from 0 to 8.
pub open spec fn place_in_region(kind: int, i: int) -> int {
    if kind == 0 {
        i % 9
    } else if kind == 1 {
        i / 9
    } else {
        3 * ((i / 9) % 3) + (i % 9) % 3
    }
}

/// The cell at place `k` of a region.
pub open spec fn cell_of_region(kind: int, region: int, k: int) -> int {
    if kind == 0 {
        9 * region + k
    } else if kind == 1 {
        9 * k + region
    } else {
        27 * (region / 3) + 9 * (k / 3) + 3 * (region % 3) + k % 3
    }
}

/// Each region has nine cells, and a cell is at its place in its region.
pub proof fn lemma_region_cells(kind: int, region: int, k: int)
    requires
        0 <= kind < 3,
        0 <= region < 9,
        0 <= k < 9,
    ensures
        0 <= cell_of_region(kind, region, k) < 81,
        region_of(kind, cell_of_region(kind, region, k)) == region,
        place_in_region(kind, cell_of_region(kind, region, k)) == k,
{
    let (r, kk) = (region as u32, k as u32);
    lemma_region_arith(
        r,
        kk,
        (9 * r + kk) as u32,
        (9 * kk + r) as u32,
        (27 * (r / 3) + 9 * (kk / 3) + 3 * (r % 3) + kk % 3) as u32,
    );
}

/// A cell is the cell at its place in its region.
pub proof fn lemma_cell_region(kind: int, i: int)
    requires
        0 <= kind < 3,
        0 <= i < 81,
    ensures
        0 <= region_of(kind, i) < 9,
        0 <= place_in_region(kind, i) < 9,
        cell_of_region(kind, region_of(kind, i), place_in_region(kind, i)) == i,
{
    let u = i as u32;
    lemma_cell_arith(u, ((u / 27) * 3 + (u % 9) / 3) as u32, (3 * ((u / 9) % 3) + (u % 9) % 3) as u32);
}

proof fn lemma_region_arith(r: u32, k: u32, a: u32, b: u32, c: u32)
    by (bit_vector)
    requires
        r < 9,
        k < 9,
        a == 9 * r + k,
        b == 9 * k + r,
        c == 27 * (r / 3) + 9 * (k / 3) + 3 * (r % 3) + k % 3,
    ensures
        a < 81,
        a / 9 == r,
        a % 9 == k,
        b < 81,
        b / 9 == k,
        b % 9 == r,
        c < 81,
        (c / 27) * 3 + (c % 9) / 3 == r,
        3 * ((c / 9) % 3) + (c % 9) % 3 == k,
{
}

proof fn lemma_cell_arith(i: u32, b: u32, k: u32)
    by (bit_vector)
    requires
        i < 81,
        b == (i / 27) * 3 + (i % 9) / 3,
        k == 3 * ((i / 9) % 3) + (i % 9) % 3,
    ensures
        i / 9 < 9,
        i % 9 < 9,
        b < 9,
        k < 9,
        9 * (i / 9) + i % 9 == i,
        27 * (b / 3) + 9 * (k / 3) + 3 * (b % 3) + k % 3 == i,
{
}

/// Two different cells of one region are peers.
pub proof fn lemma_region_peers(kind: int, i: int, j: int)
    requires
        0 <= kind < 3,
        0 <= i < 81,
        0 <= j < 81,
        i != j,
        region_of(kind, i) == region_of(kind, j),
    ensures
        peers(i, j),
{
}

/// A solution holds every digit in every region.
pub proof fn lemma_solution_region(s: Seq<u8>, kind: int, region: int, d: u8) -> (k: int)
    requires
        is_solution(s),
        0 <= kind < 3,
        0 <= region < 9,
        1 <= d <= 9,
    ensures
        0 <= k < 9,
        s[cell_of_region(kind, region, k)] == d,
{
    assert forall|k: int| 0 <= k < 9 implies 1 <= #[trigger] s[cell_of_region(kind, region, k)] <= 9 by {
        lemma_region_cells(kind, region, k);
        assert(s[cell_of_region(kind, region, k)] != 0);
        assert(s[cell_of_region(kind, region, k)] <= 9);
    }
    assert forall|k: int, l: int| 0 <= k < 9 && 0 <= l < 9 && k != l implies #[trigger] s[cell_of_region(
        kind,
        region,
        k,
    )] != #[trigger] s[cell_of_region(kind, region, l)] by {
        lemma_region_cells(kind, region, k);
        lemma_region_cells(kind, region, l);
        let (i, j) = (cell_of_region(kind, region, k), cell_of_region(kind, region, l));
        lemma_region_peers(kind, i, j);
        assert(s[i] != 0);
    }
    let a = |k: int| s[cell_of_region(kind, region, k)];
    lemma_nine_distinct(a(0), a(1), a(2), a(3), a(4), a(5), a(6), a(7), a(8), d);
    if a(0) == d { 0 } else if a(1) == d { 1 } else if a(2) == d { 2 } else if a(3) == d { 3 }
    else if a(4) == d { 4 } else if a(5) == d { 5 } else if a(6) == d { 6 } else if a(7) == d { 7 }
    else { 8 }
}

/// The cell at place `k` of a region: see [`cell_of_region`].
pub fn region_cell(kind: usize, region: usize, k: usize) -> (i: usize)
    requires
        kind < 3,
        region < 9,
        k < 9,
    ensures
        i == cell_of_region(kind as int, region as int, k as int),
        i < 81,
        region_of(kind as int, i as int) == region,
        place_in_region(kind as int, i as int) == k,
{
    proof {
        lemma_region_cells(kind as int, region as int, k as int);
    }
    if kind == 0 {
        9 * region + k
    } else if kind == 1 {
        9 * k + region
    } else {
        27 * (region / 3) + 9 * (k / 3) + 3 * (region % 3) + k % 3
    }
}

/// The region of a cell: see [`region_of`].
pub fn region_index(kind: usize, idx: usize) -> (r: usize)
    requires
        kind < 3,
        idx < 81,
    ensures
        r == region_of(kind as int, idx as int),
        r < 9,
{
    proof {
        lemma_cell_region(kind as int, idx as int);
    }
    if kind == 0 {
        idx / 9
    } else if kind == 1 {
        idx % 9
    } else {
        (idx / 27) * 3 + (idx % 9) / 3
    }
}

/// A grid of 81 cells in row-major order; `0` marks an unknown cell.
#[derive(Clone, Copy, Debug, PartialEq, Eq, Hash)]
pub struct Sudoku(pub [u8; 81]);

impl View for Sudoku {
    type V = Seq<u8>;

    open spec fn view(&self) -> Seq<u8> {
        self.0@
    }
}

/// The row of cell `idx`.
pub fn row_index(idx: usize) -> (r: usize)
    requires
        idx < 81,
    ensures
        r == row_of(idx as int),
        r < 9,
{
    idx / 9
}

/// The column of cell `idx`.
pub fn col_index(idx: usize) -> (r: usize)
    requires
        idx < 81,
    ensures
        r == col_of(idx as int),
        r < 9,
{
    idx % 9
}

/// The box of cell `idx`.
pub fn box_index(idx: usize) -> (r: usize)
    requires
        idx < 81,
    ensures
        r == box_of(idx as int),
        r < 9,
{
    (idx / 27) * 3 + (idx % 9) / 3
}

/// The `k`-th cell of row `r`.
pub fn row_cell(r: usize, k: usize) -> (i: usize)
    requires
        r < 9,
        k < 9,
    ensures
        i == 9 * r + k,
        i < 81,
        row_of(i as int) == r,
        col_of(i as int) == k,
{
    9 * r + k
}

/// The `k`-th cell of column `c`.
pub fn col_cell(c: usize, k: usize) -> (i: usize)
    requires
        c < 9,
        k < 9,
    ensures
        i == 9 * k + c,
        i < 81,
        col_of(i as int) == c,
        row_of(i as int) == k,
{
    9 * k + c
}

/// The `k`-th cell of box `b`, its cells taken row by row.
pub fn box_cell(b: usize, k: usize) -> (i: usize)
    requires
        b < 9,
        k < 9,
    ensures
        i == 27 * (b / 3) + 9 * (k / 3) + 3 * (b % 3) + k % 3,
        i < 81,
        box_of(i as int) == b,
{
    let (bb, bm, kd, km) = (b / 3, b % 3, k / 3, k % 3);
    let i = 27 * bb + 9 * kd + 3 * bm + km;
    proof {
        let low = 9 * kd + 3 * bm + km;
        assert(0 <= low < 27);
        assert(i as int / 27 == bb as int);
        assert(i as int % 9 == 3 * bm + km) by {
            assert(i as int == 9 * (3 * bb + kd) + (3 * bm + km));
        }
        assert((3 * bm + km) as int / 3 == bm as int);
    }
    i
}

/// Whether two cells are peers.
pub fn are_peers(i: usize, j: usize) -> (r: bool)
    requires
        i < 81,
        j < 81,
    ensures
        r == peers(i as int, j as int),
{
    i != j && (i / 9 == j / 9 || i % 9 == j % 9 || (i / 27) * 3 + (i % 9) / 3 == (j / 27) * 3 + (j % 9) / 3)
}

/// The digit that a character stands for: its value for '1' to '9', 0 for
/// any other character.
pub open spec fn cell_of_char(c: char) -> u8 {
    if '1' <= c && c <= '9' {
        (c as u32 - '0' as u32) as u8
    } else {
        0
    }
}

/// The grid that a text of at most 81 characters stands for, one cell for
/// each character and empty cells after the last; nothing for a longer
/// text.
pub fn from_str(s: &str) -> (r: Option<Sudoku>)
    ensures
        r is Some <==> s@.len() <= 81,
        r matches Some(grid) ==> forall|i: int|
            0 <= i < 81 ==> #[trigger] grid@[i] == (if i < s@.len() {
                cell_of_char(s@[i])
            } else {
                0u8
            }),
{
    let n = s.unicode_len();
    if n > 81 {
        return None;
    }
    let mut cells = [0u8; 81];
    let mut i: usize = 0;
    while i < n
        invariant
            i <= n <= 81,
            n == s@.len(),
            forall|j: int|
                0 <= j < 81 ==> #[trigger] cells[j] == (if j < i {
                    cell_of_char(s@[j])
                } else {
                    0u8
                }),
        decreases n - i,
    {
        let c = s.get_char(i);
        if '1' <= c && c <= '9' {
            cells[i] = (c as u32 - '0' as u32) as u8;
        }
        i += 1;
    }
    Some(Sudoku(cells))
}

impl Sudoku {
    /// The grid as a line of text: for each cell the character code of its
    /// digit, `'0'` for an empty cell.
    pub fn to_line(&self) -> (r: Vec<u8>)
        requires
            forall|i: int| 0 <= i < 81 ==> #[trigger] self@[i] <= 9,
        ensures
            r@.len() == 81,
            forall|i: int| 0 <= i < 81 ==> #[trigger] r@[i] == 48 + self@[i],
    {
        let mut line: Vec<u8> = Vec::new();
        let mut i: usize = 0;
        while i < 81
            invariant
                i <= 81,
                line@.len() == i,
                forall|j: int| 0 <= j < 81 ==> #[trigger] self@[j] <= 9,
                forall|j: int| 0 <= j < i ==> #[trigger] line@[j] == 48 + self@[j],
            decreases 81 - i,
        {
            proof {
                assert(self@[i as int] <= 9);
            }
            line.push(48 + self.0[i]);
            i += 1;
        }
        line
    }

    /// The grid with every cell unknown.
    pub fn empty() -> (r: Self)
        ensures
            r@ == Seq::new(81, |i: int| 0u8),
    {
        let r = Sudoku([0u8; 81]);
        assert(r@ =~= Seq::new(81, |i: int| 0u8));
        r
    }

    /// The 81 cells in row-major order.
    pub fn digits(&self) -> (r: &[u8; 81])
        ensures
            r@ == self@,
    {
        &self.0
    }

    /// The digit at cell `index`.
    pub fn get(&self, index: usize) -> (r: u8)
        requires
            index < 81,
        ensures
            r == self@[index as int],
    {
        self.0[index]
    }

    /// Writes `digit` at cell `index`.
    pub fn set(&mut self, index: usize, digit: u8)
        requires
            index < 81,
        ensures
            final(self)@ == old(self)@.update(index as int, digit),
    {
        self.0[index] = digit;
    }

    /// The digit at row `r`, column `c`.
    pub fn at(&self, r: usize, c: usize) -> (d: u8)
        requires
            r < 9,
            c < 9,
        ensures
            d == self@[9 * r + c],
    {
        self.0[9 * r + c]
    }

    /// Writes `digit` at row `r`, column `c`.
    pub fn set_at(&mut self, r: usize, c: usize, digit: u8)
        requires
            r < 9,
            c < 9,
        ensures
            final(self)@ == old(self)@.update(9 * r + c, digit),
    {
        self.0[9 * r + c] = digit;
    }

    /// Whether the two grids hold the same digits.
    pub fn same_as(&self, other: &Sudoku) -> (r: bool)
        ensures
            r == (self@ == other@),
    {
        let mut i: usize = 0;
        while i < 81
            invariant
                i <= 81,
                forall|j: int| 0 <= j < i ==> self@[j] == other@[j],
            decreases 81 - i,
        {
            if self.0[i] != other.0[i] {
                return false;
            }
            i += 1;
        }
        assert(self@ =~= other@);
        true
    }
}

} // verus!
