//! A brute-force solver over band masks: counts the solutions of a grid.
//!
//! For each digit and each band of three rows the solver keeps the band mask
//! of the cells where the digit can still go. Subband `3 * digit + band`
//! belongs to digit `digit + 1`.

use vstd::prelude::*;
use vstd::std_specs::bits::{axiom_u32_trailing_zeros, u32_trailing_zeros};
use crate::band_lemmas::{
    lemma_alone_is_solved, lemma_alone_kept, lemma_band_cell, lemma_bit_of_mask, lemma_column_free,
    lemma_columns_open, lemma_geometry, lemma_mask_ops, lemma_one_cell, lemma_placement_kept,
    lemma_solved_alone, lemma_within_mask,
};
use crate::band_masks::{
    ALL, NONE, column_cells, column_single, columns, columns_of, in_mask, locked_minirows,
    locked_minirows_of, minirows, minirows_of, neighbour_subbands,
    nonconflicting_cells_neighbour_bands, nonconflicting_cells_neighbour_bands_by_locked_candidates,
    nonconflicting_cells_same_band, nonconflicting_cells_same_band_by_locked_candidates,
    open_cells_beside, open_cells_by_columns, open_cells_by_minirows, open_cells_off_column,
    row_mask, rows_of, shrink_mask, shrink_of, single_column_minirows,
};
use crate::bit_iter::{MaskIter, lowest32, without_lowest32};
use crate::sudoku::{Sudoku, is_completion, is_solution, is_valid_grid, lemma_solution_band, peers};

verus! {

/// The number of digits.
pub const N_DIGITS: usize = 9;

/// The number of bands.
pub const N_BANDS: usize = 3;

/// The number of subbands: one for each digit in each band.
pub const N_SUBBANDS: usize = 27;

/// The number of cells.
pub const N_CELLS: usize = 81;

/// The state admits no solution, or the search was cut short.
pub struct Unsolvable {}

/// The sum of the masks, by which the search is known to end.
pub open spec fn total(a: Seq<u32>) -> int
    decreases a.len(),
{
    if a.len() == 0 {
        0
    } else {
        total(a.drop_last()) + a.last() as int
    }
}

/// The number of places up to `n` at which the two sequences differ.
pub open spec fn differing(a: Seq<u32>, b: Seq<u32>, n: int) -> int
    decreases n,
{
    if n <= 0 {
        0
    } else {
        differing(a, b, n - 1) + (if a[n - 1] != b[n - 1] { 1int } else { 0int })
    }
}

/// Every mask of `a` is within the mask of `b` at the same place.
pub open spec fn within(a: Seq<u32>, b: Seq<u32>) -> bool {
    &&& a.len() == b.len()
    &&& forall|i: int| 0 <= i < a.len() ==> #[trigger] a[i] & b[i] == a[i]
}

proof fn lemma_total_within(a: Seq<u32>, b: Seq<u32>)
    requires
        within(a, b),
    ensures
        total(a) <= total(b),
        total(a) == total(b) ==> a == b,
    decreases a.len(),
{
    if a.len() > 0 {
        let (x, y) = (a.last(), b.last());
        assert(x & y == x);
        lemma_within_mask(x, y, 0, 0);
        assert(within(a.drop_last(), b.drop_last())) by {
            assert forall|i: int| 0 <= i < a.len() - 1 implies #[trigger] a.drop_last()[i] & b.drop_last()[i] == a.drop_last()[i] by {
                assert(a[i] & b[i] == a[i]);
            }
        }
        lemma_total_within(a.drop_last(), b.drop_last());
        if total(a) == total(b) {
            assert(a.drop_last() == b.drop_last());
            assert(a =~= a.drop_last().push(x));
            assert(b =~= b.drop_last().push(y));
        }
    } else {
        assert(a =~= b);
    }
}

proof fn lemma_differing_update(a: Seq<u32>, b: Seq<u32>, n: int, i: int, v: u32)
    requires
        0 <= n <= a.len(),
        a.len() == b.len(),
        0 <= i < a.len(),
        a[i] != b[i],
        v == a[i],
    ensures
        differing(a, b.update(i, v), n) == differing(a, b, n) - (if i < n { 1int } else { 0int }),
        differing(a, b, n) >= (if i < n { 1int } else { 0int }),
    decreases n,
{
    if n > 0 {
        lemma_differing_update(a, b, n - 1, i, v);
    }
}

proof fn lemma_differing_none(a: Seq<u32>, b: Seq<u32>, n: int)
    requires
        0 <= n <= a.len(),
        a.len() == b.len(),
    ensures
        differing(a, b, n) >= 0,
    decreases n,
{
    if n > 0 {
        lemma_differing_none(a, b, n - 1);
    }
}

/// The digits of each grid of a list.
pub open spec fn grids_of(sols: Seq<Sudoku>) -> Seq<Seq<u8>> {
    Seq::new(sols.len(), |i: int| sols[i]@)
}

/// The solutions found so far: a count, or the grids themselves.
pub enum Solutions {
    Count(usize, Ghost<Seq<Seq<u8>>>),
    Keep(Vec<Sudoku>),
}

impl Solutions {
    /// The solutions found, in the order in which they were found.
    pub open spec fn found(&self) -> Seq<Seq<u8>> {
        match self {
            Solutions::Count(_, found) => found@,
            Solutions::Keep(sols) => grids_of(sols@),
        }
    }

    /// A count is the count of what was found.
    pub open spec fn wf(&self) -> bool {
        match self {
            Solutions::Count(value, found) => *value == found@.len(),
            Solutions::Keep(_) => true,
        }
    }

    /// A count that starts at zero.
    pub fn counting() -> (r: Self)
        ensures
            r is Count,
            r.wf(),
            r.found() == Seq::<Seq<u8>>::empty(),
    {
        Solutions::Count(0, Ghost(Seq::empty()))
    }

    /// A list that starts empty.
    pub fn keeping() -> (r: Self)
        ensures
            r is Keep,
            r.wf(),
            r.found() == Seq::<Seq<u8>>::empty(),
    {
        let r = Solutions::Keep(Vec::new());
        assert(r.found() =~= Seq::<Seq<u8>>::empty());
        r
    }

    /// How many solutions were found.
    pub fn len(&self) -> (r: usize)
        requires
            self.wf(),
        ensures
            r == self.found().len(),
    {
        match self {
            Solutions::Count(value, _) => *value,
            Solutions::Keep(sols) => sols.len(),
        }
    }

    /// Notes one more solution.
    fn add(&mut self, grid: Sudoku)
        requires
            old(self).wf(),
            old(self).found().len() < usize::MAX,
        ensures
            final(self).wf(),
            final(self).found() == old(self).found().push(grid@),
            (*final(self) is Count) == (*old(self) is Count),
    {
        match self {
            Solutions::Count(value, found) => {
                *value = *value + 1;
                proof {
                    *found = Ghost(found@.push(grid@));
                }
            },
            Solutions::Keep(sols) => {
                sols.push(grid);
                assert(grids_of(sols@) =~= grids_of(sols@.drop_last()).push(grid@));
                assert(sols@.drop_last() =~= old(self)->Keep_0@);
            },
        }
    }
}

/// What was found between `pre` and `post` is what `admits` holds with a
/// digit up to `n` at `cell`: each of them once, in full unless `limit` was
/// reached.
pub open spec fn explored_upto(
    pre: Seq<Seq<u8>>,
    post: Seq<Seq<u8>>,
    admits: spec_fn(Seq<u8>) -> bool,
    limit: int,
    cell: int,
    n: int,
) -> bool {
    &&& pre.len() <= post.len() <= limit
    &&& post.subrange(0, pre.len() as int) == pre
    &&& forall|j: int|
        pre.len() <= j < post.len() ==> is_solution(#[trigger] post[j]) && admits(post[j]) && post[j][cell] <= n
    &&& forall|j1: int, j2: int| pre.len() <= j1 < j2 < post.len() ==> #[trigger] post[j1] != #[trigger] post[j2]
    &&& post.len() < limit ==> forall|s: Seq<u8>|
        is_solution(s) && #[trigger] admits(s) && s[cell] <= n ==> exists|j: int|
            pre.len() <= j < post.len() && #[trigger] post[j] == s
}

/// What was found between `pre` and `post` comes in the order of the
/// digits at `cell`, the lowest first.
pub open spec fn rising(pre: Seq<Seq<u8>>, post: Seq<Seq<u8>>, cell: int) -> bool {
    forall|j1: int, j2: int|
        pre.len() <= j1 < j2 < post.len() ==> (#[trigger] post[j1])[cell] <= (#[trigger] post[j2])[cell]
}

/// What was found between `pre` and `post` is what `admits` holds: each of
/// them once, in full unless `limit` was reached.
pub open spec fn explored(pre: Seq<Seq<u8>>, post: Seq<Seq<u8>>, admits: spec_fn(Seq<u8>) -> bool, limit: int) -> bool {
    explored_upto(pre, post, admits, limit, 0, 9)
}

/// What was found stays in order when solutions with a digit at `cell`
/// are found after solutions with lower digits there.
proof fn lemma_rising(
    f0: Seq<Seq<u8>>,
    f1: Seq<Seq<u8>>,
    f2: Seq<Seq<u8>>,
    admits_n: spec_fn(Seq<u8>) -> bool,
    cell: int,
    n: int,
)
    requires
        f0.len() <= f1.len() <= f2.len(),
        f2.subrange(0, f1.len() as int) == f1,
        rising(f0, f1, cell),
        forall|j: int| f0.len() <= j < f1.len() ==> (#[trigger] f1[j])[cell] < n,
        forall|j: int| f1.len() <= j < f2.len() ==> admits_n(#[trigger] f2[j]),
        forall|s: Seq<u8>| #[trigger] admits_n(s) ==> s[cell] == n,
    ensures
        rising(f0, f2, cell),
{
    assert forall|j1: int, j2: int| f0.len() <= j1 < j2 < f2.len() implies (#[trigger] f2[j1])[cell] <= (
    #[trigger] f2[j2])[cell] by {
        if j1 < f1.len() {
            assert(f2[j1] == f2.subrange(0, f1.len() as int)[j1]);
        }
        if j2 < f1.len() {
            assert(f2[j2] == f2.subrange(0, f1.len() as int)[j2]);
        }
    }
}

/// Nothing is found where nothing is admitted.
proof fn lemma_explored_none(pre: Seq<Seq<u8>>, admits: spec_fn(Seq<u8>) -> bool, limit: int, cell: int, n: int)
    requires
        pre.len() <= limit,
        pre.len() >= limit || forall|s: Seq<u8>| is_solution(s) && s[cell] <= n ==> !#[trigger] admits(s),
    ensures
        explored_upto(pre, pre, admits, limit, cell, n),
{
    assert(pre.subrange(0, pre.len() as int) =~= pre);
}

/// What was found for the digits up to `n - 1` and then for digit `n` is
/// what was found for the digits up to `n`.
proof fn lemma_explored_join(
    f0: Seq<Seq<u8>>,
    f1: Seq<Seq<u8>>,
    f2: Seq<Seq<u8>>,
    admits: spec_fn(Seq<u8>) -> bool,
    admits_n: spec_fn(Seq<u8>) -> bool,
    limit: int,
    cell: int,
    n: int,
)
    requires
        0 <= cell < 81,
        explored_upto(f0, f1, admits, limit, cell, n - 1),
        explored(f1, f2, admits_n, limit),
        forall|s: Seq<u8>| is_solution(s) ==> (#[trigger] admits_n(s) <==> admits(s) && s[cell] == n),
    ensures
        explored_upto(f0, f2, admits, limit, cell, n),
{
    assert(f2.subrange(0, f0.len() as int) =~= f0) by {
        assert forall|j: int| 0 <= j < f0.len() implies f2[j] == f0[j] by {
            assert(f2.subrange(0, f1.len() as int)[j] == f1[j]);
            assert(f1.subrange(0, f0.len() as int)[j] == f0[j]);
        }
    }
    assert forall|j: int| f0.len() <= j < f2.len() implies is_solution(#[trigger] f2[j]) && admits(f2[j])
        && f2[j][cell] <= n by {
        if j < f1.len() {
            assert(f2.subrange(0, f1.len() as int)[j] == f1[j]);
            assert(is_solution(f1[j]));
        } else {
            assert(is_solution(f2[j]) && admits_n(f2[j]));
        }
    }
    assert forall|j1: int, j2: int| f0.len() <= j1 < j2 < f2.len() implies #[trigger] f2[j1] != #[trigger] f2[j2] by {
        if j1 < f1.len() {
            assert(f2.subrange(0, f1.len() as int)[j1] == f1[j1]);
            assert(is_solution(f1[j1]) && f1[j1][cell] <= n - 1);
            if j2 < f1.len() {
                assert(f2.subrange(0, f1.len() as int)[j2] == f1[j2]);
            } else {
                assert(is_solution(f2[j2]) && admits_n(f2[j2]));
            }
        }
    }
    if f2.len() < limit {
        assert forall|s: Seq<u8>| is_solution(s) && #[trigger] admits(s) && s[cell] <= n implies exists|j: int|
            f0.len() <= j < f2.len() && #[trigger] f2[j] == s by {
            if s[cell] == n {
                assert(admits_n(s));
                let j = choose|j: int| f1.len() <= j < f2.len() && #[trigger] f2[j] == s;
                assert(f0.len() <= j < f2.len() && f2[j] == s);
            } else {
                let j = choose|j: int| f0.len() <= j < f1.len() && #[trigger] f1[j] == s;
                assert(f2.subrange(0, f1.len() as int)[j] == f1[j]);
                assert(f0.len() <= j < f2.len() && f2[j] == s);
            }
        }
    }
}

/// A digit that cannot go to the cell adds nothing to explore.
proof fn lemma_explored_skip(
    f0: Seq<Seq<u8>>,
    f1: Seq<Seq<u8>>,
    admits: spec_fn(Seq<u8>) -> bool,
    limit: int,
    cell: int,
    n: int,
)
    requires
        explored_upto(f0, f1, admits, limit, cell, n - 1),
        forall|s: Seq<u8>| is_solution(s) && #[trigger] admits(s) ==> s[cell] != n,
    ensures
        explored_upto(f0, f1, admits, limit, cell, n),
{
}

/// The search state: which cells are open to each digit in each band, the
/// same as they were when the subband was last settled, the cells without a
/// digit, and the cells with two candidates.
#[derive(Clone, Copy)]
pub struct FastBruteForceSolver {
    possible_cells: [u32; 27],
    prev_possible_cells: [u32; 27],
    unsolved_cells: [u32; 3],
    bivalue_cells: [u32; 3],
}

impl FastBruteForceSolver {
    /// The cells of band `k` that are open to digit `d + 1`.
    pub closed spec fn open(&self, d: int, k: int) -> u32 {
        self.possible_cells[3 * d + k]
    }

    /// Whether digit `v` can still go to cell `i`.
    pub closed spec fn candidate(&self, i: int, v: int) -> bool {
        in_mask(self.open(v - 1, i / 27), (i % 27) as u32)
    }

    /// Whether every digit of `s` can still go where `s` has it.
    pub closed spec fn admits(&self, s: Seq<u8>) -> bool {
        forall|i: int| 0 <= i < 81 ==> #[trigger] self.candidate(i, s[i] as int)
    }

    /// Cell `c` of band `k` holds digit `d + 1`: it has no other candidate, and
    /// the digit has no other place in the cell's row, box and column.
    pub closed spec fn placed_as(&self, k: int, c: u32, d: int) -> bool {
        &&& in_mask(self.open(d, k), c)
        &&& self.open(d, k) & open_cells_beside(c) == self.open(d, k)
        &&& forall|e: int| 0 <= e < 9 && e != d ==> !in_mask(#[trigger] self.open(e, k), c)
        &&& forall|k2: int| 0 <= k2 < 3 && k2 != k ==> #[trigger] self.open(d, k2) & column_cells(c) == 0
    }

    /// The masks stay within a band; a digit that a settled subband leaves
    /// alone in its row and its box has its cell marked as solved; and each
    /// cell marked as solved holds a digit.
    pub closed spec fn wf(&self) -> bool {
        &&& self.bounded()
        &&& self.alone_marked()
        &&& self.digits_placed()
    }

    /// The masks stay within a band.
    pub closed spec fn bounded(&self) -> bool {
        &&& forall|i: int| 0 <= i < 27 ==> #[trigger] self.possible_cells[i] <= ALL
        &&& forall|i: int| 0 <= i < 27 ==> #[trigger] self.prev_possible_cells[i] <= ALL
        &&& forall|i: int| 0 <= i < 3 ==> #[trigger] self.unsolved_cells[i] <= ALL
    }

    /// A digit that a settled subband leaves alone in its row and its box has
    /// its cell marked as solved.
    pub closed spec fn alone_marked(&self) -> bool {
        forall|i: int, c: u32|
            0 <= i < 27 && c < 27 && #[trigger] in_mask(self.prev_possible_cells[i], c)
                && self.prev_possible_cells[i] & open_cells_beside(c) == self.prev_possible_cells[i]
                ==> !in_mask(self.unsolved_cells[i % 3], c)
    }

    /// Each cell marked as solved holds a digit.
    pub closed spec fn digits_placed(&self) -> bool {
        forall|k: int, c: u32|
            0 <= k < 3 && c < 27 && !#[trigger] in_mask(self.unsolved_cells[k], c) ==> exists|d: int|
                0 <= d < 9 && #[trigger] self.placed_as(k, c, d)
    }

    /// Every subband is as it was when it was last settled.
    pub closed spec fn settled(&self) -> bool {
        forall|i: int| 0 <= i < 27 ==> #[trigger] self.possible_cells[i] == self.prev_possible_cells[i]
    }

    /// Every cell is marked as solved.
    pub closed spec fn solved(&self) -> bool {
        self.unsolved_cells[0] == 0 && self.unsolved_cells[1] == 0 && self.unsolved_cells[2] == 0
    }

    /// The measure by which the search ends.
    pub closed spec fn weight(&self) -> int {
        total(self.possible_cells@)
    }

    /// How many of the digits up to `n` can still go to cell `c` of band `k`.
    pub closed spec fn candidates_below(&self, k: int, c: u32, n: int) -> int
        decreases n,
    {
        if n <= 0 {
            0
        } else {
            self.candidates_below(k, c, n - 1) + (if in_mask(self.open(n - 1, k), c) { 1int } else { 0int })
        }
    }

    /// No cell is without a candidate, no unsolved cell has a single one, and
    /// the cells noted as having two candidates are those that have two.
    pub closed spec fn branching(&self) -> bool {
        &&& forall|k: int| 0 <= k < 3 ==> #[trigger] self.bivalue_cells[k] <= ALL
        &&& forall|k: int, c: u32|
            0 <= k < 3 && c < 27 ==> {
                &&& #[trigger] self.candidates_below(k, c, 9) >= 1
                &&& in_mask(self.unsolved_cells[k], c) ==> self.candidates_below(k, c, 9) >= 2
                &&& in_mask(self.bivalue_cells[k], c) <==> self.candidates_below(k, c, 9) == 2
            }
    }

    /// The cell on which the search branches where cells are noted as
    /// having two candidates: the first of them in the first band that has
    /// one.
    pub closed spec fn bivalue_cell(&self) -> int {
        if self.bivalue_cells[0] != 0 {
            u32_trailing_zeros(lowest32(self.bivalue_cells[0])) as int
        } else if self.bivalue_cells[1] != 0 {
            27 + u32_trailing_zeros(lowest32(self.bivalue_cells[1])) as int
        } else {
            54 + u32_trailing_zeros(lowest32(self.bivalue_cells[2])) as int
        }
    }

    /// Whether each digit that could go to cell `c` of band `k` in `before`
    /// has left the other cells of the cell's row and box: the digit was
    /// given to the cell.
    pub open spec fn single_kept(&self, before: &Self, k: int, c: u32) -> bool {
        forall|d: int|
            0 <= d < 9 && in_mask(#[trigger] before.open(d, k), c) ==> self.open(d, k) & open_cells_beside(c)
                == self.open(d, k)
    }

    /// Cells of bands with the same masks have as many candidates.
    proof fn lemma_count_band(&self, other: &Self, k: int, c: u32, n: int)
        requires
            0 <= n <= 9,
            forall|d: int| 0 <= d < 9 ==> #[trigger] self.open(d, k) == other.open(d, k),
        ensures
            self.candidates_below(k, c, n) == other.candidates_below(k, c, n),
        decreases n,
    {
        if n > 0 {
            self.lemma_count_band(other, k, c, n - 1);
            assert(self.open(n - 1, k) == other.open(n - 1, k));
        }
    }

    /// Whether an unsolved cell has a single candidate.
    pub closed spec fn has_single(&self) -> bool {
        exists|k: int, c: u32|
            0 <= k < 3 && c < 27 && in_mask(self.unsolved_cells[k], c) && #[trigger] self.candidates_below(k, c, 9) == 1
    }

    /// Whether a cell has no candidate.
    pub closed spec fn has_empty_cell(&self) -> bool {
        exists|k: int, c: u32| 0 <= k < 3 && c < 27 && #[trigger] self.candidates_below(k, c, 9) == 0
    }

    /// A cell to which no digit can go has no candidate.
    proof fn lemma_count_zero(&self, k: int, c: u32, n: int)
        requires
            0 <= n,
            forall|e: int| 0 <= e < n ==> !in_mask(#[trigger] self.open(e, k), c),
        ensures
            self.candidates_below(k, c, n) == 0,
        decreases n,
    {
        if n > 0 {
            self.lemma_count_zero(k, c, n - 1);
            assert(!in_mask(self.open(n - 1, k), c));
        }
    }

    /// A state whose masks are within those of another admits only what the
    /// other admits.
    proof fn lemma_admits_within(&self, other: &Self, s: Seq<u8>)
        requires
            within(self.possible_cells@, other.possible_cells@),
            is_solution(s),
            self.admits(s),
        ensures
            other.admits(s),
    {
        assert forall|i: int| 0 <= i < 81 implies #[trigger] other.candidate(i, s[i] as int) by {
            assert(self.candidate(i, s[i] as int));
            assert(s[i] != 0 && s[i] <= 9);
            let sb = 3 * (s[i] as int - 1) + i / 27;
            assert(self.possible_cells@[sb] & other.possible_cells@[sb] == self.possible_cells@[sb]);
            lemma_within_mask(self.possible_cells@[sb], other.possible_cells@[sb], (i % 27) as u32, 0);
        }
    }

    /// What a state admits goes by its masks alone.
    proof fn lemma_admits_same(&self, other: &Self, s: Seq<u8>)
        requires
            self.possible_cells == other.possible_cells,
        ensures
            self.admits(s) == other.admits(s),
    {
        assert forall|i: int, v: int| #[trigger] self.candidate(i, v) == other.candidate(i, v) by {}
        if self.admits(s) {
            assert forall|i: int| 0 <= i < 81 implies #[trigger] other.candidate(i, s[i] as int) by {
                assert(self.candidate(i, s[i] as int));
            }
        }
        if other.admits(s) {
            assert forall|i: int| 0 <= i < 81 implies #[trigger] self.candidate(i, s[i] as int) by {
                assert(other.candidate(i, s[i] as int));
            }
        }
    }

    /// Whether every cell holds a digit.
    fn is_solved(&self) -> (r: bool)
        ensures
            r == self.solved(),
    {
        self.unsolved_cells[0] == NONE && self.unsolved_cells[1] == NONE && self.unsolved_cells[2] == NONE
    }

    /// Keeps only the cells of `mask` open in `subband`. No cell that holds
    /// the digit of the subband may be closed.
    fn restrict(&mut self, subband: usize, mask: u32)
        requires
            subband < 27,
            old(self).wf(),
            forall|c: u32|
                c < 27 && !in_mask(old(self).unsolved_cells[subband as int % 3], c) && #[trigger] in_mask(
                    old(self).possible_cells[subband as int],
                    c,
                ) ==> in_mask(mask, c),
        ensures
            final(self).wf(),
            final(self).possible_cells@ == old(self).possible_cells@.update(
                subband as int,
                old(self).possible_cells[subband as int] & mask,
            ),
            final(self).prev_possible_cells == old(self).prev_possible_cells,
            final(self).unsolved_cells == old(self).unsolved_cells,
            final(self).bivalue_cells == old(self).bivalue_cells,
            within(final(self).possible_cells@, old(self).possible_cells@),
            final(self).weight() <= old(self).weight(),
    {
        proof {
            lemma_mask_ops(self.possible_cells[subband as int], mask, 0);
        }
        self.possible_cells[subband] &= mask;
        proof {
            assert(within(self.possible_cells@, old(self).possible_cells@)) by {
                assert forall|i: int| 0 <= i < 27 implies #[trigger] self.possible_cells@[i] & old(
                    self,
                ).possible_cells@[i] == self.possible_cells@[i] by {
                    lemma_mask_ops(old(self).possible_cells@[i], mask, 0);
                }
            }
            lemma_total_within(self.possible_cells@, old(self).possible_cells@);
            assert forall|k: int, c: u32, d: int|
                0 <= k < 3 && c < 27 && 0 <= d < 9 && !in_mask(old(self).unsolved_cells[k], c)
                    && #[trigger] old(self).placed_as(k, c, d) implies in_mask(self.open(d, k), c) by {
                if 3 * d + k == subband {
                    assert(in_mask(old(self).possible_cells[subband as int], c));
                    lemma_mask_ops(old(self).possible_cells[subband as int], mask, c);
                }
            }
            old(self).lemma_shrunk(self);
        }
    }

    /// The state stays in order when masks shrink and every placed digit
    /// keeps its cell.
    proof fn lemma_shrunk(&self, after: &Self)
        requires
            self.wf(),
            within(after.possible_cells@, self.possible_cells@),
            after.prev_possible_cells == self.prev_possible_cells,
            after.unsolved_cells == self.unsolved_cells,
            forall|k: int, c: u32, d: int|
                0 <= k < 3 && c < 27 && 0 <= d < 9 && !in_mask(self.unsolved_cells[k], c)
                    && #[trigger] self.placed_as(k, c, d) ==> in_mask(after.open(d, k), c),
        ensures
            after.wf(),
    {
        assert forall|e: int, k2: int| 0 <= e < 9 && 0 <= k2 < 3 implies #[trigger] after.open(e, k2)
            & self.open(e, k2) == after.open(e, k2) by {
            assert(after.possible_cells@[3 * e + k2] & self.possible_cells@[3 * e + k2]
                == after.possible_cells@[3 * e + k2]);
        }
        assert forall|i: int| 0 <= i < 27 implies #[trigger] after.possible_cells[i] <= ALL by {
            assert(after.possible_cells@[i] & self.possible_cells@[i] == after.possible_cells@[i]);
            lemma_within_mask(after.possible_cells[i], self.possible_cells[i], 0, 0);
            assert(self.possible_cells[i] <= ALL);
        }
        assert forall|k: int, c: u32|
            0 <= k < 3 && c < 27 && !#[trigger] in_mask(after.unsolved_cells[k], c) implies exists|d: int|
            0 <= d < 9 && #[trigger] after.placed_as(k, c, d) by {
            let d = choose|d: int| 0 <= d < 9 && #[trigger] self.placed_as(k, c, d);
            assert(self.placed_as(k, c, d));
            assert forall|e: int| 0 <= e < 9 && e != d implies !in_mask(#[trigger] after.open(e, k), c) by {
                assert(!in_mask(self.open(e, k), c));
                lemma_within_mask(after.open(e, k), self.open(e, k), c, 0);
            }
            assert forall|k2: int| 0 <= k2 < 3 && k2 != k implies #[trigger] after.open(d, k2) & column_cells(c)
                == 0 by {
                assert(self.open(d, k2) & column_cells(c) == 0);
                lemma_within_mask(after.open(d, k2), self.open(d, k2), c, column_cells(c));
            }
            lemma_within_mask(after.open(d, k), self.open(d, k), c, open_cells_beside(c));
            assert(after.placed_as(k, c, d));
        }
    }

    /// The state stays in order when cells that hold a digit are marked as
    /// solved.
    proof fn lemma_marked(&self, after: &Self)
        requires
            self.wf(),
            after.possible_cells == self.possible_cells,
            forall|i: int| 0 <= i < 27 ==> #[trigger] after.prev_possible_cells[i] <= ALL,
            forall|k: int| 0 <= k < 3 ==> #[trigger] after.unsolved_cells[k] & self.unsolved_cells[k] == after.unsolved_cells[k],
            after.alone_marked(),
            forall|k: int, c: u32|
                0 <= k < 3 && c < 27 && !#[trigger] in_mask(after.unsolved_cells[k], c) && in_mask(
                    self.unsolved_cells[k],
                    c,
                ) ==> exists|d: int| 0 <= d < 9 && #[trigger] self.placed_as(k, c, d),
        ensures
            after.wf(),
    {
        assert forall|k: int| 0 <= k < 3 implies #[trigger] after.unsolved_cells[k] <= ALL by {
            lemma_within_mask(after.unsolved_cells[k], self.unsolved_cells[k], 0, 0);
            assert(self.unsolved_cells[k] <= ALL);
        }
        assert forall|k: int, c: u32|
            0 <= k < 3 && c < 27 && !#[trigger] in_mask(after.unsolved_cells[k], c) implies exists|d: int|
            0 <= d < 9 && #[trigger] after.placed_as(k, c, d) by {
            let d = choose|d: int| 0 <= d < 9 && #[trigger] self.placed_as(k, c, d);
            assert(self.placed_as(k, c, d));
            assert forall|e: int, k2: int| 0 <= e < 9 && 0 <= k2 < 3 implies #[trigger] after.open(e, k2)
                == self.open(e, k2) by {}
            assert(after.placed_as(k, c, d));
        }
    }

    /// A state in which every digit can go everywhere.
    fn blank() -> (r: Self)
        ensures
            r.wf(),
            forall|i: int| 0 <= i < 27 ==> #[trigger] r.possible_cells[i] == ALL,
            forall|i: int| 0 <= i < 27 ==> #[trigger] r.prev_possible_cells[i] == NONE,
            forall|k: int| 0 <= k < 3 ==> #[trigger] r.unsolved_cells[k] == ALL,
    {
        let mut r = FastBruteForceSolver {
            possible_cells: [ALL; 27],
            prev_possible_cells: [NONE; 27],
            unsolved_cells: [ALL; 3],
            bivalue_cells: [NONE; 3],
        };
        // each entry is written once more, so that what the arrays hold is known
        let mut i: usize = 0;
        while i < 27
            invariant
                i <= 27,
                forall|j: int| 0 <= j < i ==> #[trigger] r.possible_cells[j] == ALL,
                forall|j: int| 0 <= j < i ==> #[trigger] r.prev_possible_cells[j] == NONE,
                forall|j: int| 0 <= j < i && j < 3 ==> #[trigger] r.unsolved_cells[j] == ALL,
                forall|j: int| 0 <= j < i && j < 3 ==> #[trigger] r.bivalue_cells[j] == NONE,
            decreases 27 - i,
        {
            r.possible_cells[i] = ALL;
            r.prev_possible_cells[i] = NONE;
            if i < 3 {
                r.unsolved_cells[i] = ALL;
                r.bivalue_cells[i] = NONE;
            }
            i += 1;
        }
        proof {
            assert forall|i: int, c: u32| 0 <= i < 27 && c < 27 implies !#[trigger] in_mask(
                r.prev_possible_cells[i],
                c,
            ) by {
                lemma_mask_ops(0, 0, c);
            }
            assert forall|k: int, c: u32| 0 <= k < 3 && c < 27 implies #[trigger] in_mask(
                r.unsolved_cells[k],
                c,
            ) by {
                lemma_mask_ops(0, 0, c);
            }
        }
        r
    }

    /// Inserts a digit of the puzzle: `value` goes to `cell`, and leaves the
    /// other cells of the row, the box and the column, as the other digits
    /// leave `cell`. Fails where `value` can no longer go to `cell`.
    fn insert_value(&mut self, cell: usize, value: u8) -> (r: Result<(), Unsolvable>)
        requires
            old(self).wf(),
            cell < 81,
            1 <= value <= 9,
            in_mask(old(self).unsolved_cells[cell as int / 27], (cell % 27) as u32),
        ensures
            r is Err ==> !old(self).candidate(cell as int, value as int),
            r is Err ==> *final(self) == *old(self),
            r is Ok ==> {
                &&& old(self).candidate(cell as int, value as int)
                &&& final(self).wf()
                &&& final(self).prev_possible_cells == old(self).prev_possible_cells
                &&& final(self).bivalue_cells == old(self).bivalue_cells
                &&& forall|k: int, c: u32|
                    0 <= k < 3 && c < 27 ==> (#[trigger] in_mask(final(self).unsolved_cells[k], c) <==> in_mask(
                        old(self).unsolved_cells[k],
                        c,
                    ) && 27 * k + c != cell)
                &&& forall|i: int, v: int|
                    0 <= i < 81 && 1 <= v <= 9 ==> (#[trigger] final(self).candidate(i, v) <==> if i == cell {
                        v == value
                    } else {
                        old(self).candidate(i, v) && !(v == value && peers(i, cell as int))
                    })
            },
    {
        let band = cell / 27;
        let subband = (value as usize - 1) * 3 + band;
        let c: u32 = (cell % 27) as u32;
        let cell_mask: u32 = 1u32 << c;
        proof {
            lemma_geometry(c, c);
            lemma_band_cell(cell as u32);
        }

        // Check if this digit is allowed in this position
        if self.possible_cells[subband] & cell_mask == NONE {
            return Err(Unsolvable {});
        }
        // Set the cell containing this digit to solved
        self.unsolved_cells[band] &= !cell_mask;

        // Remove the digit as a possibility from cell neighbours by row, column and box
        let beside = nonconflicting_cells_same_band(cell);
        self.possible_cells[subband] &= beside;
        let off_column = nonconflicting_cells_neighbour_bands(cell);
        let (neighbour1, neighbour2) = neighbour_subbands(subband);
        self.possible_cells[neighbour1] &= off_column;
        self.possible_cells[neighbour2] &= off_column;
        let ghost mid = *self;

        // Remove other digits as a possibility from the same cell
        let mut digit: usize = 0;
        while digit < 9
            invariant
                digit <= 9,
                band < 3,
                self.prev_possible_cells == mid.prev_possible_cells,
                self.unsolved_cells == mid.unsolved_cells,
                self.bivalue_cells == mid.bivalue_cells,
                forall|j: int|
                    0 <= j < 27 ==> #[trigger] self.possible_cells[j] == (if j % 3 == band && j / 3 < digit {
                        mid.possible_cells[j] & !cell_mask
                    } else {
                        mid.possible_cells[j]
                    }),
            decreases 9 - digit,
        {
            self.possible_cells[digit * 3 + band] &= !cell_mask;
            digit += 1;
        }
        self.possible_cells[subband] |= cell_mask;

        proof {
            let before = *old(self);
            let d = value as int - 1;
            let k = band as int;
            let sb = subband as int;
            assert(off_column == open_cells_off_column(c % 9));
            assert(beside == open_cells_beside(c));
            // the masks in closed form
            assert forall|j: int| 0 <= j < 27 implies #[trigger] self.possible_cells[j] == (if j == sb {
                before.possible_cells[j] & beside
            } else if j % 3 == k {
                before.possible_cells[j] & !cell_mask
            } else if j / 3 == d {
                before.possible_cells[j] & off_column
            } else {
                before.possible_cells[j]
            }) by {
                if j == sb {
                    lemma_mask_ops(before.possible_cells[j], beside, c);
                    lemma_mask_ops(before.possible_cells[j], cell_mask, c);
                }
            }
            before.lemma_inserted(self, k, c, d);
            before.lemma_inserted_candidates(self, k, c, d);
        }
        Ok(())
    }

    /// The state stays in order when a digit of the puzzle is inserted.
    proof fn lemma_inserted(&self, after: &Self, k: int, c: u32, d: int)
        requires
            self.wf(),
            0 <= k < 3,
            c < 27,
            0 <= d < 9,
            in_mask(self.unsolved_cells[k], c),
            in_mask(self.possible_cells[3 * d + k], c),
            after.prev_possible_cells == self.prev_possible_cells,
            after.unsolved_cells@ == self.unsolved_cells@.update(k, self.unsolved_cells[k] & !(1u32 << c)),
            forall|j: int|
                0 <= j < 27 ==> #[trigger] after.possible_cells[j] == (if j == 3 * d + k {
                    self.possible_cells[j] & open_cells_beside(c)
                } else if j % 3 == k {
                    self.possible_cells[j] & !(1u32 << c)
                } else if j / 3 == d {
                    self.possible_cells[j] & open_cells_off_column(c % 9)
                } else {
                    self.possible_cells[j]
                }),
        ensures
            after.wf(),
            forall|k2: int, c2: u32|
                0 <= k2 < 3 && c2 < 27 ==> (#[trigger] in_mask(after.unsolved_cells[k2], c2) <==> in_mask(
                    self.unsolved_cells[k2],
                    c2,
                ) && !(k2 == k && c2 == c)),
    {
        let cm = 1u32 << c;
        let sb = 3 * d + k;
        // a state between the two: the masks of `after`, the marks of `self`
        let mid = FastBruteForceSolver {
            possible_cells: after.possible_cells,
            prev_possible_cells: self.prev_possible_cells,
            unsolved_cells: self.unsolved_cells,
            bivalue_cells: self.bivalue_cells,
        };
        assert(within(mid.possible_cells@, self.possible_cells@)) by {
            assert forall|j: int| 0 <= j < 27 implies #[trigger] mid.possible_cells@[j] & self.possible_cells@[j]
                == mid.possible_cells@[j] by {
                lemma_mask_ops(self.possible_cells[j], open_cells_beside(c), 0);
                lemma_mask_ops(self.possible_cells[j], cm, 0);
                lemma_mask_ops(self.possible_cells[j], open_cells_off_column(c % 9), 0);
            }
        }
        assert forall|k2: int, c2: u32, d2: int|
            0 <= k2 < 3 && c2 < 27 && 0 <= d2 < 9 && !in_mask(self.unsolved_cells[k2], c2)
                && #[trigger] self.placed_as(k2, c2, d2) implies in_mask(mid.open(d2, k2), c2) by {
            let j = 3 * d2 + k2;
            let m = self.possible_cells[j];
            lemma_geometry(c, c2);
            lemma_geometry(c2, c);
            if j == sb {
                // the digit at c2 leaves c open, so the digit at c leaves c2 open
                lemma_within_mask(m, open_cells_beside(c2), c, 0);
                lemma_mask_ops(m, open_cells_beside(c), c2);
            } else if j % 3 == k {
                lemma_mask_ops(m, cm, c2);
            } else if j / 3 == d {
                assert(self.open(d2, k) & column_cells(c2) == 0);
                lemma_mask_ops(self.open(d2, k), column_cells(c2), c);
                lemma_mask_ops(m, open_cells_off_column(c % 9), c2);
            }
        }
        self.lemma_shrunk(&mid);
        // the new cell holds its digit
        assert(mid.placed_as(k, c, d)) by {
            lemma_geometry(c, c);
            lemma_mask_ops(self.possible_cells[sb], open_cells_beside(c), c);
            assert forall|e: int| 0 <= e < 9 && e != d implies !in_mask(#[trigger] mid.open(e, k), c) by {
                lemma_mask_ops(self.possible_cells[3 * e + k], cm, c);
            }
            assert forall|k2: int| 0 <= k2 < 3 && k2 != k implies #[trigger] mid.open(d, k2) & column_cells(c)
                == 0 by {
                let m = self.possible_cells[3 * d + k2];
                let off = open_cells_off_column(c % 9);
                lemma_mask_ops(m, off, 0);
                lemma_within_mask(m & off, off, 0, column_cells(c));
            }
        }
        assert forall|k2: int| 0 <= k2 < 3 implies #[trigger] after.unsolved_cells[k2] & mid.unsolved_cells[k2]
            == after.unsolved_cells[k2] by {
            lemma_mask_ops(self.unsolved_cells[k2], cm, 0);
        }
        assert forall|k2: int, c2: u32| 0 <= k2 < 3 && c2 < 27 implies (#[trigger] in_mask(
            after.unsolved_cells[k2],
            c2,
        ) <==> in_mask(self.unsolved_cells[k2], c2) && !(k2 == k && c2 == c)) by {
            lemma_mask_ops(self.unsolved_cells[k2], cm, c2);
            lemma_geometry(c, c2);
        }
        assert(after.alone_marked()) by {
            assert forall|i: int, c2: u32|
                0 <= i < 27 && c2 < 27 && #[trigger] in_mask(after.prev_possible_cells[i], c2)
                    && after.prev_possible_cells[i] & open_cells_beside(c2) == after.prev_possible_cells[i]
                    implies !in_mask(after.unsolved_cells[i % 3], c2) by {
                assert(!in_mask(self.unsolved_cells[i % 3], c2));
            }
        }
        mid.lemma_marked(after);
    }

    /// Which digits can go where, after a digit of the puzzle is inserted.
    proof fn lemma_inserted_candidates(&self, after: &Self, k: int, c: u32, d: int)
        requires
            self.bounded(),
            0 <= k < 3,
            c < 27,
            0 <= d < 9,
            in_mask(self.possible_cells[3 * d + k], c),
            forall|j: int|
                0 <= j < 27 ==> #[trigger] after.possible_cells[j] == (if j == 3 * d + k {
                    self.possible_cells[j] & open_cells_beside(c)
                } else if j % 3 == k {
                    self.possible_cells[j] & !(1u32 << c)
                } else if j / 3 == d {
                    self.possible_cells[j] & open_cells_off_column(c % 9)
                } else {
                    self.possible_cells[j]
                }),
        ensures
            forall|i: int, v: int|
                0 <= i < 81 && 1 <= v <= 9 ==> (#[trigger] after.candidate(i, v) <==> if i == 27 * k + c {
                    v == d + 1
                } else {
                    self.candidate(i, v) && !(v == d + 1 && peers(i, 27 * k + c))
                }),
    {
        let cell = 27 * k + c;
        assert forall|i: int, v: int| 0 <= i < 81 && 1 <= v <= 9 implies (#[trigger] after.candidate(i, v) <==> if i
            == cell {
            v == d + 1
        } else {
            self.candidate(i, v) && !(v == d + 1 && peers(i, cell))
        }) by {
            let j = 3 * (v - 1) + i / 27;
            let e = (i % 27) as u32;
            let m = self.possible_cells[j];
            lemma_band_cell(i as u32);
            lemma_band_cell(cell as u32);
            lemma_geometry(c, e);
            assert(cell / 27 == k && cell % 27 == c);
            if j == 3 * d + k {
                lemma_mask_ops(m, open_cells_beside(c), e);
            } else if j % 3 == k {
                lemma_mask_ops(m, 1u32 << c, e);
            } else if j / 3 == d {
                lemma_mask_ops(m, open_cells_off_column(c % 9), e);
            }
        }
    }

    /// Whether digit `v` can go to cell `i` by the digits of the first
    /// `cell` cells of a grid: a cell with a digit takes that digit, and its
    /// peers do not.
    pub open spec fn open_to(g: Seq<u8>, cell: int, i: int, v: int) -> bool {
        forall|j: int|
            0 <= j < cell && #[trigger] g[j] != 0 ==> (if i == j {
                v == g[j]
            } else {
                !(v == g[j] && peers(i, j))
            })
    }

    /// The solver for a puzzle: it admits the completions of the puzzle and
    /// no other solution. Fails where a digit of the puzzle stands against
    /// another, or is no digit: where the grid is not valid.
    pub fn from_sudoku(sudoku: &Sudoku) -> (r: Result<Self, Unsolvable>)
        ensures
            r is Err <==> !is_valid_grid(sudoku@),
            r is Err ==> forall|s: Seq<u8>| !is_completion(sudoku@, s),
            r matches Ok(solver) ==> solver.wf() && forall|s: Seq<u8>|
                is_solution(s) ==> (#[trigger] solver.admits(s) <==> is_completion(sudoku@, s)),
    {
        let mut solver = Self::blank();
        proof {
            assert forall|s: Seq<u8>| is_solution(s) implies #[trigger] solver.admits(s) by {
                assert forall|i: int| 0 <= i < 81 implies #[trigger] solver.candidate(i, s[i] as int) by {
                    assert(s[i] != 0 && s[i] <= 9);
                    lemma_mask_ops(0, 0, (i % 27) as u32);
                }
            }
            assert forall|k: int, c: u32| 0 <= k < 3 && c < 27 implies #[trigger] in_mask(
                solver.unsolved_cells[k],
                c,
            ) by {
                lemma_mask_ops(0, 0, c);
            }
        }
        proof {
            assert forall|i: int, v: int| 0 <= i < 81 && 1 <= v <= 9 implies #[trigger] solver.candidate(i, v) by {
                lemma_mask_ops(0, 0, (i % 27) as u32);
            }
        }
        let mut cell: usize = 0;
        while cell < 81
            invariant
                cell <= 81,
                solver.wf(),
                forall|i: int, v: int|
                    0 <= i < 81 && 1 <= v <= 9 ==> (#[trigger] solver.candidate(i, v) <==> Self::open_to(
                        sudoku@,
                        cell as int,
                        i,
                        v,
                    )),
                forall|j: int| 0 <= j < cell ==> #[trigger] sudoku@[j] <= 9,
                forall|a: int, b: int|
                    0 <= a < cell && 0 <= b < cell && peers(a, b) && #[trigger] sudoku@[a] != 0 ==> sudoku@[a]
                        != #[trigger] sudoku@[b],
                forall|k: int, c: u32|
                    0 <= k < 3 && c < 27 && 27 * k + c >= cell ==> #[trigger] in_mask(solver.unsolved_cells[k], c),
                forall|s: Seq<u8>|
                    is_solution(s) ==> (#[trigger] solver.admits(s) <==> forall|j: int|
                        0 <= j < cell && #[trigger] sudoku@[j] != 0 ==> s[j] == sudoku@[j]),
            decreases 81 - cell,
        {
            let value = sudoku.0[cell];
            let ghost before = solver;
            if value != 0 {
                if value > 9 {
                    proof {
                        assert(!(sudoku@[cell as int] <= 9));
                        assert forall|s: Seq<u8>| !is_completion(sudoku@, s) by {
                            if is_completion(sudoku@, s) {
                                assert(sudoku@[cell as int] != 0);
                                assert(s[cell as int] <= 9);
                            }
                        }
                    }
                    return Err(Unsolvable {});
                }
                proof {
                    lemma_band_cell(cell as u32);
                    assert(in_mask(solver.unsolved_cells[cell as int / 27], (cell % 27) as u32));
                }
                let inserted = solver.insert_value(cell, value);
                if inserted.is_err() {
                    proof {
                        assert(!Self::open_to(sudoku@, cell as int, cell as int, value as int));
                        let j = choose|j: int|
                            0 <= j < cell && #[trigger] sudoku@[j] != 0 && !(if cell == j {
                                value == sudoku@[j]
                            } else {
                                !(value == sudoku@[j] && peers(cell as int, j))
                            });
                        assert(peers(j, cell as int) && sudoku@[j] != 0 && sudoku@[j] == sudoku@[cell as int]);
                        assert(!is_valid_grid(sudoku@));
                        assert forall|s: Seq<u8>| !is_completion(sudoku@, s) by {
                            if is_completion(sudoku@, s) {
                                assert(sudoku@[cell as int] != 0);
                                assert(before.admits(s));
                                assert(before.candidate(cell as int, s[cell as int] as int));
                            }
                        }
                    }
                    return Err(Unsolvable {});
                }
                proof {
                    assert forall|s: Seq<u8>| is_solution(s) implies (#[trigger] solver.admits(s) <==> forall|j: int|
                        0 <= j < cell + 1 && #[trigger] sudoku@[j] != 0 ==> s[j] == sudoku@[j]) by {
                        let agrees = forall|j: int| 0 <= j < cell && #[trigger] sudoku@[j] != 0 ==> s[j] == sudoku@[j];
                        assert(before.admits(s) <==> agrees);
                        if solver.admits(s) {
                            assert(solver.candidate(cell as int, s[cell as int] as int));
                            assert(s[cell as int] != 0 && s[cell as int] <= 9);
                            assert forall|i: int| 0 <= i < 81 implies #[trigger] before.candidate(i, s[i] as int) by {
                                assert(solver.candidate(i, s[i] as int));
                                assert(s[i] != 0 && s[i] <= 9);
                            }
                        }
                        if before.admits(s) && s[cell as int] == value {
                            assert forall|i: int| 0 <= i < 81 implies #[trigger] solver.candidate(i, s[i] as int) by {
                                assert(before.candidate(i, s[i] as int));
                                assert(s[i] != 0 && s[i] <= 9);
                                if i != cell && peers(i, cell as int) {
                                    assert(s[i] != s[cell as int]);
                                }
                            }
                        }
                    }
                    assert forall|k: int, c: u32| 0 <= k < 3 && c < 27 && 27 * k + c >= cell + 1 implies #[trigger] in_mask(
                        solver.unsolved_cells[k],
                        c,
                    ) by {
                        assert(in_mask(before.unsolved_cells[k], c));
                    }
                }
            }
            proof {
                let g = sudoku@;
                assert(before.candidate(cell as int, value as int) || value == 0);
                assert forall|i: int, v: int| 0 <= i < 81 && 1 <= v <= 9 implies (#[trigger] solver.candidate(i, v)
                    <==> Self::open_to(g, cell + 1, i, v)) by {
                    assert(before.candidate(i, v) <==> Self::open_to(g, cell as int, i, v));
                    if value != 0 {
                        assert(Self::open_to(g, cell as int, cell as int, value as int));
                        assert(g[cell as int] != 0);
                    }
                }
                assert forall|a: int, b: int|
                    0 <= a < cell + 1 && 0 <= b < cell + 1 && peers(a, b) && #[trigger] g[a] != 0 implies g[a]
                    != #[trigger] g[b] by {
                    if value != 0 {
                        assert(Self::open_to(g, cell as int, cell as int, value as int));
                        if a == cell && g[b] != 0 {
                            assert(!(value == g[b] && peers(cell as int, b)));
                        }
                        if b == cell {
                            assert(!(value == g[a] && peers(cell as int, a)));
                        }
                    }
                }
            }
            cell += 1;
        }
        proof {
            assert forall|s: Seq<u8>| is_solution(s) implies (#[trigger] solver.admits(s) <==> is_completion(
                sudoku@,
                s,
            )) by {}
            assert(is_valid_grid(sudoku@));
        }
        Ok(solver)
    }

    /// The count of candidates stays within the digits looked at.
    proof fn lemma_count_bounds(&self, k: int, c: u32, n: int)
        requires
            0 <= n,
        ensures
            0 <= self.candidates_below(k, c, n) <= n,
        decreases n,
    {
        if n > 0 {
            self.lemma_count_bounds(k, c, n - 1);
        }
    }

    /// The count of candidates grows with the digits looked at, and stays
    /// the same only where no further digit is a candidate.
    proof fn lemma_count_grows(&self, k: int, c: u32, m: int, n: int)
        requires
            0 <= m <= n,
        ensures
            self.candidates_below(k, c, m) <= self.candidates_below(k, c, n),
            self.candidates_below(k, c, m) == self.candidates_below(k, c, n) ==> forall|d: int|
                m <= d < n ==> !in_mask(#[trigger] self.open(d, k), c),
        decreases n - m,
    {
        if m < n {
            self.lemma_count_grows(k, c, m, n - 1);
        }
    }

    /// A candidate counts.
    proof fn lemma_count_one(&self, k: int, c: u32, d: int, n: int)
        requires
            0 <= d < n,
            in_mask(self.open(d, k), c),
        ensures
            self.candidates_below(k, c, n) >= self.candidates_below(k, c, d) + 1,
    {
        self.lemma_count_grows(k, c, d + 1, n);
    }

    /// Two candidates count twice.
    proof fn lemma_count_two(&self, k: int, c: u32, d: int, e: int, n: int)
        requires
            0 <= d < e < n,
            in_mask(self.open(d, k), c),
            in_mask(self.open(e, k), c),
        ensures
            self.candidates_below(k, c, n) >= self.candidates_below(k, c, d) + 2,
    {
        self.lemma_count_one(k, c, d, e);
        self.lemma_count_one(k, c, e, n);
    }

    /// The count of candidates goes by the masks alone, and does not grow
    /// where the masks shrink.
    proof fn lemma_count_within(&self, other: &Self, k: int, c: u32, n: int)
        requires
            0 <= k < 3,
            0 <= n <= 9,
            within(self.possible_cells@, other.possible_cells@),
        ensures
            self.candidates_below(k, c, n) <= other.candidates_below(k, c, n),
            self.possible_cells@ == other.possible_cells@ ==> self.candidates_below(k, c, n)
                == other.candidates_below(k, c, n),
        decreases n,
    {
        if n > 0 {
            self.lemma_count_within(other, k, c, n - 1);
            let j = 3 * (n - 1) + k;
            assert(self.possible_cells@[j] & other.possible_cells@[j] == self.possible_cells@[j]);
            lemma_within_mask(self.possible_cells@[j], other.possible_cells@[j], c, 0);
        }
    }

    /// A digit that has a single candidate cell left in a row is there in
    /// every solution that the state admits.
    proof fn lemma_single_candidate(&self, s: Seq<u8>, k: int, c: u32, d: int)
        requires
            0 <= k < 3,
            c < 27,
            0 <= d < 9,
            is_solution(s),
            self.admits(s),
            forall|e: int| 0 <= e < 9 && e != d ==> !in_mask(#[trigger] self.open(e, k), c),
        ensures
            s[27 * k + c] == d + 1,
    {
        let i = 27 * k + c;
        assert(self.candidate(i, s[i] as int));
        assert(s[i] != 0 && s[i] <= 9);
        lemma_band_cell(i as u32);
        assert(i / 27 == k && i % 27 == c);
    }

    /// A solution that has the digit of `subband` at a cell stays admitted
    /// when the digit is inserted there.
    proof fn lemma_insert_admits(&self, after: &Self, subband: int, c: u32, s: Seq<u8>)
        requires
            0 <= subband < 27,
            c < 27,
            after.possible_cells@ == self.possible_cells@.update(
                subband,
                self.possible_cells[subband] & open_cells_beside(c),
            ),
            is_solution(s),
            self.admits(s),
            s[27 * (subband % 3) + c] == subband / 3 + 1,
        ensures
            after.admits(s),
    {
        let k = subband % 3;
        let cell = 27 * k + c;
        assert forall|i: int| 0 <= i < 81 implies #[trigger] after.candidate(i, s[i] as int) by {
            assert(self.candidate(i, s[i] as int));
            assert(s[i] != 0 && s[i] <= 9);
            let j = 3 * (s[i] as int - 1) + i / 27;
            if j == subband {
                let e = (i % 27) as u32;
                lemma_band_cell(i as u32);
                lemma_band_cell(cell as u32);
                lemma_geometry(c, e);
                lemma_mask_ops(self.possible_cells[subband], open_cells_beside(c), e);
                if i != cell {
                    if peers(i, cell) {
                        assert(s[i] != s[cell]);
                    }
                }
            }
        }
    }

    /// The masks of the cells of `band` with at least one, two and three
    /// candidates.
    fn count_candidates(&self, band: usize) -> (r: (u32, u32, u32))
        requires
            band < 3,
            self.bounded(),
        ensures
            r.0 <= ALL,
            r.1 <= ALL,
            r.2 <= ALL,
            forall|c: u32|
                c < 27 ==> {
                    &&& in_mask(r.0, c) <==> #[trigger] self.candidates_below(band as int, c, 9) >= 1
                    &&& in_mask(r.1, c) <==> self.candidates_below(band as int, c, 9) >= 2
                    &&& in_mask(r.2, c) <==> self.candidates_below(band as int, c, 9) >= 3
                },
    {
        let (mut cells1, mut cells2, mut cells3) = (NONE, NONE, NONE);
        let mut digit: usize = 0;
        proof {
            assert forall|c: u32| c < 27 implies !in_mask(0u32, c) by {
                lemma_mask_ops(0, 0, c);
            }
        }
        while digit < 9
            invariant
                digit <= 9,
                band < 3,
                self.bounded(),
                cells1 <= ALL,
                cells2 <= ALL,
                cells3 <= ALL,
                forall|c: u32|
                    c < 27 ==> {
                        &&& in_mask(cells1, c) <==> #[trigger] self.candidates_below(band as int, c, digit as int) >= 1
                        &&& in_mask(cells2, c) <==> self.candidates_below(band as int, c, digit as int) >= 2
                        &&& in_mask(cells3, c) <==> self.candidates_below(band as int, c, digit as int) >= 3
                    },
            decreases 9 - digit,
        {
            let band_mask = self.possible_cells[digit * 3 + band];
            let ghost (old1, old2, old3) = (cells1, cells2, cells3);
            cells3 |= cells2 & band_mask;
            cells2 |= cells1 & band_mask;
            cells1 |= band_mask;
            proof {
                assert(band_mask <= ALL);
                lemma_mask_ops(old2, band_mask, 0);
                lemma_mask_ops(old1, band_mask, 0);
                lemma_mask_ops(old3, old2 & band_mask, 0);
                lemma_mask_ops(old2, old1 & band_mask, 0);
                lemma_mask_ops(old1, band_mask, 0);
                lemma_within_mask(old2 & band_mask, old2, 0, 0);
                lemma_within_mask(old1 & band_mask, old1, 0, 0);
                assert forall|c: u32| c < 27 implies {
                    &&& in_mask(cells1, c) <==> #[trigger] self.candidates_below(band as int, c, digit + 1) >= 1
                    &&& in_mask(cells2, c) <==> self.candidates_below(band as int, c, digit + 1) >= 2
                    &&& in_mask(cells3, c) <==> self.candidates_below(band as int, c, digit + 1) >= 3
                } by {
                    let n = self.candidates_below(band as int, c, digit as int);
                    assert(in_mask(old1, c) <==> n >= 1);
                    assert(self.open(digit as int, band as int) == band_mask);
                    lemma_mask_ops(old2, band_mask, c);
                    lemma_mask_ops(old1, band_mask, c);
                    lemma_mask_ops(old3, old2 & band_mask, c);
                    lemma_mask_ops(old2, old1 & band_mask, c);
                    lemma_mask_ops(old1, band_mask, c);
                    self.lemma_count_bounds(band as int, c, digit as int);
                }
            }
            digit += 1;
        }
        (cells1, cells2, cells3)
    }

    /// Inserts the digit of `subband` at the cell `mask`: the other cells
    /// of the cell's row and box are closed to the digit. The columns are
    /// left to the settling of the subbands.
    fn insert_value_by_mask(&mut self, subband: usize, mask: u32) -> (c: Ghost<u32>)
        requires
            subband < 27,
            old(self).wf(),
            mask != 0,
            mask <= ALL,
            mask & ((mask - 1) as u32) == 0,
            old(self).possible_cells[subband as int] & mask != 0,
            old(self).unsolved_cells[subband as int % 3] & mask != 0,
        ensures
            c@ < 27,
            c@ == u32_trailing_zeros(mask),
            mask == 1u32 << c@,
            final(self).wf(),
            final(self).possible_cells@ == old(self).possible_cells@.update(
                subband as int,
                old(self).possible_cells[subband as int] & open_cells_beside(c@),
            ),
            final(self).prev_possible_cells == old(self).prev_possible_cells,
            final(self).unsolved_cells == old(self).unsolved_cells,
            final(self).bivalue_cells == old(self).bivalue_cells,
            within(final(self).possible_cells@, old(self).possible_cells@),
            final(self).weight() <= old(self).weight(),
            old(self).possible_cells[subband as int] == old(self).prev_possible_cells[subband as int]
                ==> final(self).weight() < old(self).weight(),
    {
        let cell = mask.trailing_zeros();
        proof {
            axiom_u32_trailing_zeros(mask);
            lemma_bit_of_mask(mask, cell);
            lemma_geometry(cell, cell);
            let p = self.possible_cells[subband as int];
            let k = subband as int % 3;
            let d = subband as int / 3;
            // no digit in place is closed by the insertion
            assert forall|c2: u32|
                c2 < 27 && !in_mask(self.unsolved_cells[k], c2) && #[trigger] in_mask(p, c2) implies in_mask(
                open_cells_beside(cell),
                c2,
            ) by {
                let d2 = choose|d2: int| 0 <= d2 < 9 && #[trigger] self.placed_as(k, c2, d2);
                assert(self.placed_as(k, c2, d2));
                assert(self.open(d, k) == p);
                assert(d2 == d);
                lemma_within_mask(p, open_cells_beside(c2), cell, 0);
                lemma_geometry(c2, cell);
                lemma_geometry(cell, c2);
            }
        }
        let open = nonconflicting_cells_same_band(cell as usize);
        self.restrict(subband, open);
        proof {
            let p = old(self).possible_cells[subband as int];
            if p == old(self).prev_possible_cells[subband as int] {
                // the digit is not alone in its row and box, so a cell is closed
                assert(in_mask(old(self).prev_possible_cells[subband as int], cell));
                assert(p & open_cells_beside(cell) != p);
                lemma_mask_ops(p, open_cells_beside(cell), 0);
                lemma_total_within(self.possible_cells@, old(self).possible_cells@);
                assert(self.possible_cells@[subband as int] != old(self).possible_cells@[subband as int]);
            }
        }
        Ghost(cell)
    }

    /// Gives every cell with a single candidate its digit, and notes the
    /// cells with two candidates. Fails where a cell has no candidate, at
    /// the outset or once digits were given. Returns whether a digit was
    /// given: whether an unsolved cell had a single candidate.
    fn find_naked_singles(&mut self) -> (r: Result<bool, Unsolvable>)
        requires
            old(self).wf(),
        ensures
            r is Err ==> final(self).has_empty_cell(),
            r matches Ok(applied) ==> (applied <==> old(self).has_single()),
            r is Ok ==> forall|k: int, c: u32|
                0 <= k < 3 && c < 27 ==> (#[trigger] in_mask(final(self).bivalue_cells[k], c)
                    <==> old(self).candidates_below(k, c, 9) == 2),
            r is Ok ==> forall|k: int, c: u32|
                0 <= k < 3 && c < 27 && in_mask(old(self).unsolved_cells[k], c) && old(self).candidates_below(k, c, 9) == 1
                    ==> #[trigger] final(self).single_kept(old(self), k, c),
            within(final(self).possible_cells@, old(self).possible_cells@),
            final(self).prev_possible_cells == old(self).prev_possible_cells,
            final(self).unsolved_cells == old(self).unsolved_cells,
            r is Err ==> forall|s: Seq<u8>| is_solution(s) ==> !old(self).admits(s),
            r matches Ok(applied) ==> {
                &&& final(self).wf()
                &&& within(final(self).possible_cells@, old(self).possible_cells@)
                &&& final(self).prev_possible_cells == old(self).prev_possible_cells
                &&& final(self).unsolved_cells == old(self).unsolved_cells
                &&& forall|s: Seq<u8>| is_solution(s) ==> (#[trigger] final(self).admits(s) <==> old(self).admits(s))
                &&& !applied ==> final(self).possible_cells == old(self).possible_cells && final(self).branching()
                &&& applied && old(self).settled() ==> final(self).weight() < old(self).weight()
                &&& final(self).weight() <= old(self).weight()
            },
    {
        let mut naked_single_applied = false;
        let mut band: usize = 0;
        proof {
            assert(within(self.possible_cells@, old(self).possible_cells@)) by {
                assert forall|i: int| 0 <= i < 27 implies #[trigger] self.possible_cells@[i] & old(
                    self,
                ).possible_cells@[i] == self.possible_cells@[i] by {
                    lemma_mask_ops(self.possible_cells@[i], 0, 0);
                }
            }
        }
        while band < 3
            invariant
                band <= 3,
                self.wf(),
                within(self.possible_cells@, old(self).possible_cells@),
                self.prev_possible_cells == old(self).prev_possible_cells,
                self.unsolved_cells == old(self).unsolved_cells,
                forall|s: Seq<u8>| is_solution(s) ==> (#[trigger] self.admits(s) <==> old(self).admits(s)),
                !naked_single_applied ==> self.possible_cells == old(self).possible_cells,
                !naked_single_applied ==> forall|k: int| 0 <= k < band ==> #[trigger] self.bivalue_cells[k] <= ALL,
                !naked_single_applied ==> forall|k: int, c: u32|
                    0 <= k < band && c < 27 ==> {
                        &&& #[trigger] self.candidates_below(k, c, 9) >= 1
                        &&& in_mask(self.unsolved_cells[k], c) ==> self.candidates_below(k, c, 9) >= 2
                        &&& in_mask(self.bivalue_cells[k], c) <==> self.candidates_below(k, c, 9) == 2
                    },
                naked_single_applied ==> old(self).has_single(),
                naked_single_applied && old(self).settled() ==> self.weight() < old(self).weight(),
                self.weight() <= old(self).weight(),
                forall|k: int, c: u32|
                    0 <= k < band && c < 27 ==> (#[trigger] in_mask(self.bivalue_cells[k], c)
                        <==> old(self).candidates_below(k, c, 9) == 2),
                forall|k: int, d: int| band <= k < 3 && 0 <= d < 9 ==> #[trigger] self.open(d, k) == old(self).open(d, k),
                forall|k: int, c: u32|
                    0 <= k < band && c < 27 && in_mask(old(self).unsolved_cells[k], c) && old(self).candidates_below(
                        k,
                        c,
                        9,
                    ) == 1 ==> #[trigger] self.single_kept(old(self), k, c),
            decreases 3 - band,
        {
            // Masks of cells with >= 1, >= 2 and >= 3 candidates
            let (cells1, cells2, cells3) = self.count_candidates(band);
            let ghost at_band = *self;
            let ghost was_applied_before = naked_single_applied;

            if cells1 != ALL {
                proof {
                    lemma_mask_ops(cells1, 0, 0);
                    let gap = ALL & !cells1;
                    let low = gap ^ (gap & ((gap - 1) as u32));
                    let c = u32_trailing_zeros(low);
                    axiom_u32_trailing_zeros(low);
                    assert(low != 0) by {
                        lemma_gap(gap);
                    }
                    lemma_one_cell(gap, low, c);
                    lemma_mask_ops(ALL, cells1, c);
                    assert(!in_mask(cells1, c));
                    self.lemma_count_bounds(band as int, c, 9);
                    assert(c < 27);
                    assert(self.candidates_below(band as int, c, 9) == 0);
                    assert forall|s: Seq<u8>| is_solution(s) implies !old(self).admits(s) by {
                        if old(self).admits(s) {
                            assert(self.admits(s));
                            let i = 27 * band + c;
                            assert(self.candidate(i, s[i] as int));
                            assert(s[i] != 0 && s[i] <= 9);
                            lemma_band_cell(i as u32);
                            self.lemma_count_bounds(band as int, c, s[i] as int - 1);
                            self.lemma_count_one(band as int, c, s[i] as int - 1, 9);
                        }
                    }
                }
                return Err(Unsolvable {});
            }
            // Store bivalue cells

            self.bivalue_cells[band] = cells2 ^ cells3;

            // New singles, ignore previously solved ones
            let singles = (cells1 ^ cells2) & self.unsolved_cells[band];
            proof {
                assert forall|k: int| 0 <= k < 3 implies #[trigger] self.unsolved_cells[k] & at_band.unsolved_cells[k]
                    == self.unsolved_cells[k] by {
                    lemma_mask_ops(self.unsolved_cells[k], 0, 0);
                }
                at_band.lemma_marked(self);
                lemma_mask_ops(cells1, cells2, 0);
                lemma_mask_ops(cells1 ^ cells2, self.unsolved_cells[band as int], 0);
                assert(self.unsolved_cells[band as int] <= ALL);
                lemma_within_mask(singles, self.unsolved_cells[band as int], 0, 0);
                assert forall|c: u32| c < 27 implies {
                    &&& (in_mask(singles, c) <==> in_mask(self.unsolved_cells[band as int], c)
                        && #[trigger] at_band.candidates_below(band as int, c, 9) == 1)
                    &&& (in_mask(self.bivalue_cells[band as int], c) <==> at_band.candidates_below(band as int, c, 9) == 2)
                } by {
                    lemma_mask_ops(cells1, cells2, c);
                    lemma_mask_ops(cells2, cells3, c);
                    lemma_mask_ops(cells1 ^ cells2, self.unsolved_cells[band as int], c);
                }
                assert forall|k: int, c: u32| 0 <= k < 3 && c < 27 implies #[trigger] self.candidates_below(k, c, 9)
                    == at_band.candidates_below(k, c, 9) by {
                    assert(within(self.possible_cells@, at_band.possible_cells@)) by {
                        assert forall|i: int| 0 <= i < 27 implies #[trigger] self.possible_cells@[i]
                            & at_band.possible_cells@[i] == self.possible_cells@[i] by {
                            lemma_mask_ops(self.possible_cells@[i], 0, 0);
                        }
                    }
                    self.lemma_count_within(&at_band, k, c, 9);
                }
                assert forall|s: Seq<u8>| is_solution(s) implies (#[trigger] self.admits(s) <==> at_band.admits(s)) by {
                    self.lemma_admits_same(&at_band, s);
                }
            }
            if singles == 0 {
                proof {
                    assert forall|c: u32| c < 27 implies !in_mask(singles, c) by {
                        lemma_mask_ops(0, 0, c);
                    }
                }
            }
            proof {
                assert forall|d: int| 0 <= d < 9 implies #[trigger] at_band.open(d, band as int) == old(self).open(
                    d,
                    band as int,
                ) by {}
                assert forall|c: u32| c < 27 implies at_band.candidates_below(band as int, c, 9)
                    == old(self).candidates_below(band as int, c, 9) by {
                    at_band.lemma_count_band(old(self), band as int, c, 9);
                }
                assert forall|c: u32| c < 27 implies ((#[trigger] in_mask(singles, c) <==> in_mask(
                    old(self).unsolved_cells[band as int],
                    c,
                ) && old(self).candidates_below(band as int, c, 9) == 1) && (in_mask(self.bivalue_cells[band as int], c)
                    <==> old(self).candidates_below(band as int, c, 9) == 2)) by {
                    at_band.lemma_count_band(old(self), band as int, c, 9);
                    assert(in_mask(singles, c) <==> in_mask(self.unsolved_cells[band as int], c)
                        && at_band.candidates_below(band as int, c, 9) == 1);
                    assert(in_mask(self.bivalue_cells[band as int], c) <==> at_band.candidates_below(band as int, c, 9)
                        == 2);
                }
                assert forall|k: int, d: int| 0 <= k < 3 && 0 <= d < 9 implies #[trigger] self.open(d, k)
                    == at_band.open(d, k) by {}
                assert forall|k: int, c: u32| 0 <= k < band + 1 && c < 27 implies (#[trigger] in_mask(
                    self.bivalue_cells[k],
                    c,
                ) <==> old(self).candidates_below(k, c, 9) == 2) by {
                    if k < band {
                        assert(self.bivalue_cells[k] == at_band.bivalue_cells[k]);
                        assert(in_mask(at_band.bivalue_cells[k], c) <==> old(self).candidates_below(k, c, 9) == 2);
                    } else {
                        at_band.lemma_count_band(old(self), band as int, c, 9);
                        assert(in_mask(self.bivalue_cells[band as int], c) <==> at_band.candidates_below(
                            band as int,
                            c,
                            9,
                        ) == 2);
                    }
                }
                assert forall|k: int, c: u32|
                    0 <= k < band && c < 27 && in_mask(old(self).unsolved_cells[k], c) && old(self).candidates_below(
                        k,
                        c,
                        9,
                    ) == 1 implies #[trigger] self.single_kept(old(self), k, c) by {
                    assert(at_band.single_kept(old(self), k, c));
                    assert forall|d: int| 0 <= d < 9 && in_mask(#[trigger] old(self).open(d, k), c) implies self.open(d, k)
                        & open_cells_beside(c) == self.open(d, k) by {
                        assert(self.open(d, k) == at_band.open(d, k));
                    }
                }
            }
            // Insert each of the new singles

            let mut rest = MaskIter::<u32>::from(singles);
            let mut next = rest.next();
            let ghost mut pending = singles;
            proof {
                lemma_mask_ops(singles, singles, 0);
                lemma_mask_ops(0, singles, 0);
                if singles != 0 {
                    let low = lowest32(singles);
                    axiom_u32_trailing_zeros(low);
                    lemma_lowest(singles, singles);
                    lemma_gap(singles);
                    lemma_one_cell(singles, low, u32_trailing_zeros(low));
                }
            }
            proof {
                assert(within(self.possible_cells@, at_band.possible_cells@)) by {
                    assert forall|i: int| 0 <= i < 27 implies #[trigger] self.possible_cells@[i]
                        & at_band.possible_cells@[i] == self.possible_cells@[i] by {
                        lemma_mask_ops(self.possible_cells@[i], 0, 0);
                    }
                }
                assert forall|c: u32| c < 27 && #[trigger] in_mask(singles, c) implies in_mask(
                    self.unsolved_cells[band as int],
                    c,
                ) && at_band.candidates_below(band as int, c, 9) == 1 by {
                    lemma_mask_ops(cells1, cells2, c);
                    lemma_mask_ops(cells1 ^ cells2, self.unsolved_cells[band as int], c);
                }
            }
            let ghost in_band = *self;
            while next.is_some()
                invariant
                    band < 3,
                    self.wf(),
                    rest@ <= ALL,
                    rest@ & singles == rest@,
                    next matches Some(m) ==> m & singles == m && m != 0 && m <= ALL && m & ((m - 1) as u32) == 0,
                    within(self.possible_cells@, at_band.possible_cells@),
                    within(self.possible_cells@, old(self).possible_cells@),
                    self.prev_possible_cells == old(self).prev_possible_cells,
                    self.unsolved_cells == old(self).unsolved_cells,
                    self.bivalue_cells@ == at_band.bivalue_cells@.update(band as int, cells2 ^ cells3),
                    forall|s: Seq<u8>| is_solution(s) ==> (#[trigger] self.admits(s) <==> old(self).admits(s)),
                    forall|c: u32| c < 27 && #[trigger] in_mask(singles, c) ==> in_mask(self.unsolved_cells[band as int], c)
                        && at_band.candidates_below(band as int, c, 9) == 1,
                    singles == (cells1 ^ cells2) & self.unsolved_cells[band as int],
                    next.is_some() || naked_single_applied || singles == 0,
                    !naked_single_applied ==> !was_applied_before,
                    naked_single_applied ==> old(self).has_single(),
                    pending & singles == pending,
                    next == (if pending == 0 { None } else { Some(lowest32(pending)) }),
                    rest@ == without_lowest32(pending),
                    forall|d: int| 0 <= d < 9 ==> #[trigger] at_band.open(d, band as int) == old(self).open(d, band as int),
                    forall|k: int, d: int| band < k < 3 && 0 <= d < 9 ==> #[trigger] self.open(d, k) == old(self).open(d, k),
                    forall|k: int, c: u32|
                        0 <= k < band + 1 && c < 27 ==> (#[trigger] in_mask(self.bivalue_cells[k], c)
                            <==> old(self).candidates_below(k, c, 9) == 2),
                    forall|k: int, c: u32|
                        0 <= k < band && c < 27 && in_mask(old(self).unsolved_cells[k], c) && old(self).candidates_below(
                            k,
                            c,
                            9,
                        ) == 1 ==> #[trigger] self.single_kept(old(self), k, c),
                    forall|c: u32|
                        c < 27 ==> (#[trigger] in_mask(singles, c) <==> in_mask(old(self).unsolved_cells[band as int], c)
                            && old(self).candidates_below(band as int, c, 9) == 1),
                    forall|c: u32|
                        c < 27 && in_mask(singles, c) && !in_mask(pending, c) ==> #[trigger] self.single_kept(
                            old(self),
                            band as int,
                            c,
                        ),
                    !was_applied_before ==> at_band.possible_cells == old(self).possible_cells,
                    !naked_single_applied ==> self.possible_cells == old(self).possible_cells,
                    naked_single_applied && old(self).settled() ==> self.weight() < old(self).weight(),
                    self.weight() <= old(self).weight(),
                decreases (if next.is_some() { 1int } else { 0int }) + rest@ as int,
            {
                let cell_mask_single = next.unwrap();
                let was_applied = naked_single_applied;
                // Mark that we've applied a naked single
                naked_single_applied = true;

                // Find the digit that can go in this single cell
                let mut digit: usize = 0;
                let mut found = false;
                while digit < 9 && !found
                    invariant
                        digit <= 9,
                        band < 3,
                        !found ==> forall|e: int| 0 <= e < digit ==> #[trigger] self.possible_cells[3 * e + band] & cell_mask_single == 0,
                        found ==> digit < 9 && self.possible_cells[3 * digit + band] & cell_mask_single != 0,
                    decreases 9 - digit + (if found { 0int } else { 1int }),
                {
                    if self.possible_cells[digit * 3 + band] & cell_mask_single != NONE {
                        found = true;
                    } else {
                        digit += 1;
                    }
                }
                if !found {
                    // a forced empty cell
                    proof {
                        let c = u32_trailing_zeros(cell_mask_single);
                        axiom_u32_trailing_zeros(cell_mask_single);
                        lemma_bit_of_mask(cell_mask_single, c);
                        assert forall|e: int| 0 <= e < 9 implies !in_mask(#[trigger] self.open(e, band as int), c) by {
                            assert(self.possible_cells[3 * e + band] & cell_mask_single == 0);
                        }
                        self.lemma_count_zero(band as int, c, 9);
                        assert forall|s: Seq<u8>| is_solution(s) implies !old(self).admits(s) by {
                            if old(self).admits(s) {
                                assert(self.admits(s));
                                let i = 27 * band + c;
                                assert(self.candidate(i, s[i] as int));
                                assert(s[i] != 0 && s[i] <= 9);
                                lemma_band_cell(i as u32);
                                assert(self.possible_cells[3 * (s[i] as int - 1) + band] & cell_mask_single == 0);
                            }
                        }
                    }
                    return Err(Unsolvable {});
                }
                let ghost before = *self;
                proof {
                    lemma_within_mask(cell_mask_single, singles, 0, 0);
                    lemma_mask_ops(cells1 ^ cells2, self.unsolved_cells[band as int], 0);
                    lemma_unsolved_single(self.unsolved_cells[band as int], cells1 ^ cells2, cell_mask_single);
                }
                let Ghost(c) = self.insert_value_by_mask(digit * 3 + band, cell_mask_single);
                proof {
                    let d = digit as int;
                    let k = band as int;
                    assert(in_mask(before.open(d, k), c));
                    lemma_geometry(c, c);
                    lemma_within_mask(cell_mask_single, singles, c, 0);
                    assert(in_mask(singles, c));
                    assert(at_band.candidates_below(k, c, 9) == 1);
                    if !was_applied {
                        assert(within(at_band.possible_cells@, old(self).possible_cells@)) by {
                            assert forall|i: int| 0 <= i < 27 implies #[trigger] at_band.possible_cells@[i]
                                & old(self).possible_cells@[i] == at_band.possible_cells@[i] by {
                                lemma_mask_ops(at_band.possible_cells@[i], 0, 0);
                            }
                        }
                        at_band.lemma_count_within(old(self), k, c, 9);
                        assert(in_mask(old(self).unsolved_cells[k], c) && old(self).candidates_below(k, c, 9) == 1);
                        assert(old(self).has_single());
                    }
                    // no other digit can go to the cell
                    assert forall|e: int| 0 <= e < 9 && e != d implies !in_mask(#[trigger] before.open(e, k), c) by {
                        if in_mask(before.open(e, k), c) {
                            before.lemma_count_within(&at_band, k, c, 9);
                            before.lemma_count_bounds(k, c, d);
                            before.lemma_count_bounds(k, c, e);
                            if e < d {
                                before.lemma_count_two(k, c, e, d, 9);
                            } else {
                                before.lemma_count_two(k, c, d, e, 9);
                            }
                        }
                    }
                    assert forall|s: Seq<u8>| is_solution(s) implies (#[trigger] self.admits(s) <==> old(self).admits(s)) by {
                        if before.admits(s) {
                            before.lemma_single_candidate(s, k, c, d);
                            before.lemma_insert_admits(self, 3 * d + k, c, s);
                        }
                        if self.admits(s) {
                            self.lemma_admits_within(&before, s);
                        }
                    }
                    assert(within(self.possible_cells@, at_band.possible_cells@)) by {
                        assert forall|i: int| 0 <= i < 27 implies #[trigger] self.possible_cells@[i]
                            & at_band.possible_cells@[i] == self.possible_cells@[i] by {
                            assert(before.possible_cells@[i] & at_band.possible_cells@[i] == before.possible_cells@[i]);
                            lemma_within_mask(before.possible_cells@[i], at_band.possible_cells@[i], 0, open_cells_beside(c));
                        }
                    }
                    assert(within(self.possible_cells@, old(self).possible_cells@)) by {
                        assert forall|i: int| 0 <= i < 27 implies #[trigger] self.possible_cells@[i] & old(
                            self,
                        ).possible_cells@[i] == self.possible_cells@[i] by {
                            assert(before.possible_cells@[i] & old(self).possible_cells@[i] == before.possible_cells@[i]);
                            lemma_within_mask(before.possible_cells@[i], old(self).possible_cells@[i], 0, open_cells_beside(c));
                        }
                    }
                    if !was_applied && old(self).settled() {
                        assert(before.possible_cells[3 * d + k] == before.prev_possible_cells[3 * d + k]);
                    }
                    assert(rest@ != 0 ==> rest@ <= ALL);
                    // the masks of the other digits and bands stay
                    assert forall|k2: int, d2: int|
                        0 <= k2 < 3 && 0 <= d2 < 9 && !(k2 == k && d2 == d) implies #[trigger] self.open(d2, k2)
                        == before.open(d2, k2) by {
                        assert(3 * d2 + k2 != 3 * d + k);
                    }
                    assert(self.open(d, k) == before.open(d, k) & open_cells_beside(c));
                    lemma_rest(before.open(d, k), open_cells_beside(c), 0, 0);
                    lemma_mask_ops(before.open(d, k), open_cells_beside(c), 0);
                    // the cell has its digit
                    assert(self.single_kept(old(self), k, c)) by {
                        assert forall|d2: int| 0 <= d2 < 9 && in_mask(#[trigger] old(self).open(d2, k), c) implies self.open(
                            d2,
                            k,
                        ) & open_cells_beside(c) == self.open(d2, k) by {
                            if d2 != d {
                                assert(in_mask(old(self).open(d, k), c)) by {
                                    assert(before.possible_cells@[3 * d + k] & old(self).possible_cells@[3 * d + k]
                                        == before.possible_cells@[3 * d + k]);
                                    lemma_within_mask(before.open(d, k), old(self).open(d, k), c, 0);
                                }
                                old(self).lemma_count_bounds(k, c, d);
                                old(self).lemma_count_bounds(k, c, d2);
                                if d2 < d {
                                    old(self).lemma_count_two(k, c, d2, d, 9);
                                } else {
                                    old(self).lemma_count_two(k, c, d, d2, 9);
                                }
                            }
                        }
                    }
                    // and the cells before keep theirs
                    assert forall|k2: int, c2: u32|
                        0 <= k2 < 3 && c2 < 27 && before.single_kept(old(self), k2, c2) implies #[trigger] self.single_kept(
                        old(self),
                        k2,
                        c2,
                    ) by {
                        assert forall|d2: int| 0 <= d2 < 9 && in_mask(#[trigger] old(self).open(d2, k2), c2) implies self.open(
                            d2,
                            k2,
                        ) & open_cells_beside(c2) == self.open(d2, k2) by {
                            assert(before.open(d2, k2) & open_cells_beside(c2) == before.open(d2, k2));
                            if k2 == k && d2 == d {
                                lemma_within_mask(self.open(d, k), before.open(d, k), 0, open_cells_beside(c2));
                            }
                        }
                    }
                }
                let ghost rest_before = rest@;
                let ghost pending_before = pending;
                next = rest.next();
                proof {
                    pending = rest_before;
                    lemma_lowest(pending_before, singles);
                    assert forall|c2: u32| c2 < 27 && in_mask(singles, c2) && !in_mask(pending, c2) implies #[trigger] self.single_kept(
                        old(self),
                        band as int,
                        c2,
                    ) by {
                        lemma_rest(pending_before, 0, c2, c);
                        if c2 != c {
                            assert(!in_mask(pending_before, c2));
                        }
                    }
                    lemma_mask_ops(0, singles, 0);
                    if rest_before != 0 {
                        let low = lowest32(rest_before);
                        let cc = u32_trailing_zeros(low);
                        axiom_u32_trailing_zeros(low);
                        lemma_lowest(rest_before, singles);
                        lemma_gap(rest_before);
                        lemma_one_cell(rest_before, low, cc);
                    }
                }
            }
            proof {
                assert forall|k: int, c: u32|
                    0 <= k < band + 1 && c < 27 && in_mask(old(self).unsolved_cells[k], c) && old(self).candidates_below(
                        k,
                        c,
                        9,
                    ) == 1 implies #[trigger] self.single_kept(old(self), k, c) by {
                    if k == band {
                        lemma_mask_ops(0, 0, c);
                        assert(in_mask(singles, c));
                        assert(pending == 0);
                    }
                }
                if !naked_single_applied {
                    assert(self.possible_cells == at_band.possible_cells);
                    lemma_mask_ops(cells2, cells3, 0);
                    assert forall|k: int| 0 <= k < band + 1 implies #[trigger] self.bivalue_cells[k] <= ALL by {
                        if k != band {
                            assert(at_band.bivalue_cells[k] <= ALL);
                        }
                    }
                    assert forall|k: int, c: u32| 0 <= k < band + 1 && c < 27 implies {
                        &&& #[trigger] self.candidates_below(k, c, 9) >= 1
                        &&& in_mask(self.unsolved_cells[k], c) ==> self.candidates_below(k, c, 9) >= 2
                        &&& in_mask(self.bivalue_cells[k], c) <==> self.candidates_below(k, c, 9) == 2
                    } by {
                        assert(within(self.possible_cells@, at_band.possible_cells@));
                        self.lemma_count_within(&at_band, k, c, 9);
                        if k == band {
                            lemma_mask_ops(cells1, cells2, c);
                            lemma_mask_ops(cells2, cells3, c);
                            lemma_mask_ops(cells1 ^ cells2, self.unsolved_cells[band as int], c);
                            lemma_mask_ops(0, 0, c);
                            assert(in_mask(cells1, c));
                            assert(at_band.candidates_below(band as int, c, 9) >= 1);
                        } else {
                            assert(at_band.candidates_below(k, c, 9) >= 1);
                            assert(self.bivalue_cells[k] == at_band.bivalue_cells[k]);
                        }
                    }
                }
            }
            band += 1;
        }
        proof {
            if !naked_single_applied {
                assert(self.branching());
                assert(!old(self).has_single()) by {
                    assert forall|k: int, c: u32|
                        0 <= k < 3 && c < 27 && in_mask(old(self).unsolved_cells[k], c) implies #[trigger] old(self).candidates_below(
                        k,
                        c,
                        9,
                    ) != 1 by {
                        self.lemma_count_within(old(self), k, c, 9);
                        assert(self.candidates_below(k, c, 9) >= 2);
                    }
                }
            }
        }
        Ok(naked_single_applied)
    }

    /// A solution stays admitted when a subband is restricted to a mask that
    /// holds every cell where the solution has the subband's digit.
    proof fn lemma_restrict_admits(&self, after: &Self, subband: int, mask: u32, s: Seq<u8>)
        requires
            0 <= subband < 27,
            after.possible_cells@ == self.possible_cells@.update(subband, self.possible_cells[subband] & mask),
            is_solution(s),
            self.admits(s),
            forall|i: int|
                27 * (subband % 3) <= i < 27 * (subband % 3) + 27 && #[trigger] s[i] == subband / 3 + 1 ==> in_mask(
                    mask,
                    (i % 27) as u32,
                ),
        ensures
            after.admits(s),
    {
        assert forall|i: int| 0 <= i < 81 implies #[trigger] after.candidate(i, s[i] as int) by {
            assert(self.candidate(i, s[i] as int));
            assert(s[i] != 0 && s[i] <= 9);
            let j = 3 * (s[i] as int - 1) + i / 27;
            if j == subband {
                lemma_band_cell(i as u32);
                lemma_mask_ops(self.possible_cells[subband], mask, (i % 27) as u32);
            }
        }
    }

    /// Where a solution that the state admits has digit `d + 1` in band `k`.
    proof fn lemma_admitted_band(&self, s: Seq<u8>, d: int, k: int) -> (r: (u32, u32, u32))
        requires
            is_solution(s),
            self.admits(s),
            0 <= d < 9,
            0 <= k < 3,
        ensures
            r.0 < 9,
            9 <= r.1 < 18,
            18 <= r.2 < 27,
            in_mask(self.open(d, k), r.0),
            in_mask(self.open(d, k), r.1),
            in_mask(self.open(d, k), r.2),
            (r.0 % 9) / 3 != (r.1 % 9) / 3,
            (r.0 % 9) / 3 != (r.2 % 9) / 3,
            (r.1 % 9) / 3 != (r.2 % 9) / 3,
            forall|i: int|
                27 * k <= i < 27 * k + 27 && #[trigger] s[i] == d + 1 ==> i == 27 * k + r.0 || i == 27 * k + r.1 || i
                    == 27 * k + r.2,
            forall|i: int|
                0 <= i < 81 && i / 27 != k && #[trigger] s[i] == d + 1 ==> i % 9 != r.0 % 9 && i % 9 != r.1 % 9 && i
                    % 9 != r.2 % 9,
            s[27 * k + r.0] == d + 1,
            s[27 * k + r.1] == d + 1,
            s[27 * k + r.2] == d + 1,
    {
        let r = lemma_solution_band(s, (d + 1) as u8, k);
        let (i0, i1, i2) = (27 * k + r.0, 27 * k + r.1, 27 * k + r.2);
        assert(self.candidate(i0, s[i0] as int));
        assert(self.candidate(i1, s[i1] as int));
        assert(self.candidate(i2, s[i2] as int));
        lemma_band_cell(i0 as u32);
        lemma_band_cell(i1 as u32);
        lemma_band_cell(i2 as u32);
        r
    }

    /// Settles one subband: closes the cells that the digit cannot take
    /// given the minirows it has left, closes its columns in the
    /// neighbouring bands where a box leaves it one column, and marks as
    /// solved the cells where it is alone in its row and its box, closing
    /// them to the other digits. Fails where the digit has no place left.
    fn find_locked_candidates_and_update_subband(&mut self, subband: usize) -> (r: Result<(), Unsolvable>)
        requires
            old(self).wf(),
            subband < 27,
        ensures
            r is Err ==> forall|s: Seq<u8>| is_solution(s) ==> !old(self).admits(s),
            r is Ok ==> {
                &&& final(self).wf()
                &&& within(final(self).possible_cells@, old(self).possible_cells@)
                &&& within(final(self).unsolved_cells@, old(self).unsolved_cells@)
                &&& final(self).prev_possible_cells@ == old(self).prev_possible_cells@.update(
                    subband as int,
                    final(self).possible_cells[subband as int],
                )
                &&& final(self).possible_cells[subband as int] != NONE
                &&& final(self).bivalue_cells == old(self).bivalue_cells
                &&& forall|s: Seq<u8>| is_solution(s) ==> (#[trigger] final(self).admits(s) <==> old(self).admits(s))
            },
    {
        let old_possible_cells = self.possible_cells[subband];
        let ghost d = subband as int / 3;
        let ghost k = subband as int % 3;
        proof {
            assert(old_possible_cells <= ALL);
            assert(self.open(d, k) == old_possible_cells);
        }

        // Find all locked candidates in the band, both pointing and claiming.
        let shrink = minirows(old_possible_cells);
        let open = nonconflicting_cells_same_band_by_locked_candidates(shrink);
        let possible_cells = old_possible_cells & open;

        // Check for impossibility and then update the possible cells for this subband
        if possible_cells == NONE {
            proof {
                assert forall|s: Seq<u8>| is_solution(s) implies !old(self).admits(s) by {
                    if old(self).admits(s) {
                        let r = self.lemma_admitted_band(s, d, k);
                        lemma_placement_kept(old_possible_cells, r.0, r.1, r.2, shrink, possible_cells);
                        lemma_mask_ops(0, 0, r.0);
                    }
                }
            }
            return Err(Unsolvable {});
        }
        proof {
            // a digit in place stays
            assert forall|c: u32|
                c < 27 && !in_mask(self.unsolved_cells[k], c) && #[trigger] in_mask(old_possible_cells, c) implies in_mask(
                open,
                c,
            ) by {
                let d2 = choose|d2: int| 0 <= d2 < 9 && #[trigger] self.placed_as(k, c, d2);
                assert(self.placed_as(k, c, d2));
                assert(d2 == d);
                lemma_alone_kept(old_possible_cells, c, shrink, possible_cells);
                lemma_mask_ops(old_possible_cells, open, c);
            }
        }
        self.restrict(subband, open);
        let ghost first = *self;
        proof {
            assert(self.possible_cells[subband as int] == possible_cells);
            assert forall|s: Seq<u8>| is_solution(s) implies (#[trigger] first.admits(s) <==> old(self).admits(s)) by {
                if old(self).admits(s) {
                    let r = old(self).lemma_admitted_band(s, d, k);
                    lemma_placement_kept(old_possible_cells, r.0, r.1, r.2, shrink, possible_cells);
                    assert forall|i: int| 27 * k <= i < 27 * k + 27 && #[trigger] s[i] == d + 1 implies in_mask(
                        open,
                        (i % 27) as u32,
                    ) by {
                        lemma_band_cell(i as u32);
                        lemma_mask_ops(old_possible_cells, open, (i % 27) as u32);
                    }
                    old(self).lemma_restrict_admits(&first, subband as int, open, s);
                }
                if first.admits(s) {
                    first.lemma_admits_within(old(self), s);
                }
            }
        }

        // Possible columns in subband, including already solved ones
        let possible_columns = columns(possible_cells);

        // Check for locked candidates in the columns (pointing type)
        // This is also what's enforcing that a column cannot contain a digit
        // more than once, since that is ignored by insert_value_by_mask
        let nonconflicting_neighbours = nonconflicting_cells_neighbour_bands_by_locked_candidates(possible_columns);
        let (neighbour1, neighbour2) = neighbour_subbands(subband);
        proof {
            first.lemma_neighbour_open(subband as int, neighbour1 as int, nonconflicting_neighbours);
        }
        self.restrict(neighbour1, nonconflicting_neighbours);
        let ghost second = *self;
        proof {
            assert(second.possible_cells[subband as int] == possible_cells);
            second.lemma_neighbour_open(subband as int, neighbour2 as int, nonconflicting_neighbours);
            assert forall|s: Seq<u8>| is_solution(s) implies (#[trigger] second.admits(s) <==> old(self).admits(s)) by {
                if first.admits(s) {
                    first.lemma_neighbour_admits(&second, subband as int, neighbour1 as int, nonconflicting_neighbours, s);
                }
                if second.admits(s) {
                    second.lemma_admits_within(&first, s);
                }
            }
        }
        self.restrict(neighbour2, nonconflicting_neighbours);
        let ghost third = *self;
        proof {
            assert(third.possible_cells[subband as int] == possible_cells);
            assert forall|s: Seq<u8>| is_solution(s) implies (#[trigger] third.admits(s) <==> old(self).admits(s)) by {
                if second.admits(s) {
                    second.lemma_neighbour_admits(&third, subband as int, neighbour2 as int, nonconflicting_neighbours, s);
                }
                if third.admits(s) {
                    third.lemma_admits_within(&second, s);
                }
            }
            assert(within(third.possible_cells@, old(self).possible_cells@)) by {
                lemma_within_chain(third.possible_cells@, second.possible_cells@, first.possible_cells@);
                lemma_within_chain(third.possible_cells@, first.possible_cells@, old(self).possible_cells@);
            }
        }

        // Minirows that are locked have no neighbouring minirows in the same row
        // or in the same box. If they are inside a box where only 1 column is
        // possible, then only 1 cell is possible and the value is placed in the
        // row.
        let locked_candidates_intersection = locked_minirows(shrink) & column_single(possible_columns);
        let solved_rows = shrink_mask(locked_candidates_intersection);
        let solved_cells = row_mask(solved_rows) & possible_cells;

        // Delete candidates of other digits from all solved cells in current subband
        let band = subband % 3;
        let nonconflicting_cells = !solved_cells;
        let mut digit: usize = 0;
        proof {
            assert forall|i: int| 0 <= i < 27 implies #[trigger] self.possible_cells@[i] & third.possible_cells@[i]
                == self.possible_cells@[i] by {
                lemma_mask_ops(self.possible_cells@[i], 0, 0);
            }
        }
        while digit < 9
            invariant
                digit <= 9,
                band == subband % 3,
                subband < 27,
                k == band,
                third.possible_cells[subband as int] == possible_cells,
                d == subband as int / 3,
                self.wf(),
                old_possible_cells <= ALL,
                shrink == minirows_of(old_possible_cells),
                possible_cells == old_possible_cells & open_cells_by_minirows(shrink),
                possible_columns == columns_of(possible_cells),
                locked_candidates_intersection == locked_minirows_of(shrink) & single_column_minirows(possible_columns),
                solved_cells == rows_of(shrink_of(locked_candidates_intersection)) & possible_cells,
                nonconflicting_cells == !solved_cells,
                self.prev_possible_cells == third.prev_possible_cells,
                self.unsolved_cells == third.unsolved_cells,
                self.bivalue_cells == third.bivalue_cells,
                within(self.possible_cells@, third.possible_cells@),
                forall|j: int|
                    0 <= j < 27 ==> #[trigger] self.possible_cells[j] == (if j % 3 == band && j / 3 < digit && j
                        != subband {
                        third.possible_cells[j] & nonconflicting_cells
                    } else {
                        third.possible_cells[j]
                    }),
                forall|s: Seq<u8>| is_solution(s) ==> (#[trigger] self.admits(s) <==> third.admits(s)),
            decreases 9 - digit,
        {
            let other_subband = digit * 3 + band;
            if other_subband != subband {
                let ghost before = *self;
                proof {
                    assert(self.possible_cells[subband as int] == possible_cells);
                    assert(self.open(d, k) == possible_cells);
                    // a digit in place is not among the newly solved cells of another digit
                    assert forall|c: u32|
                        c < 27 && !in_mask(self.unsolved_cells[k], c) && #[trigger] in_mask(
                            self.possible_cells[other_subband as int],
                            c,
                        ) implies in_mask(nonconflicting_cells, c) by {
                        let d2 = choose|d2: int| 0 <= d2 < 9 && #[trigger] self.placed_as(k, c, d2);
                        assert(self.placed_as(k, c, d2));
                        assert(self.open(digit as int, k) == self.possible_cells[other_subband as int]);
                        assert(d2 == digit);
                        assert(!in_mask(self.open(d, k), c));
                        lemma_mask_ops(rows_of(shrink_of(locked_candidates_intersection)), possible_cells, c);
                        lemma_mask_ops(0o777_777_777u32, solved_cells, c);
                        lemma_not_mask(solved_cells, c);
                    }
                }
                self.restrict(other_subband, nonconflicting_cells);
                proof {
                    assert forall|s: Seq<u8>| is_solution(s) implies (#[trigger] self.admits(s) <==> third.admits(s)) by {
                        if before.admits(s) {
                            let r = before.lemma_admitted_band(s, d, k);
                            assert forall|i: int|
                                27 * k <= i < 27 * k + 27 && #[trigger] s[i] == other_subband as int / 3 + 1 implies in_mask(
                                nonconflicting_cells,
                                (i % 27) as u32,
                            ) by {
                                let c = (i % 27) as u32;
                                lemma_band_cell(i as u32);
                                lemma_not_mask(solved_cells, c);
                                if in_mask(solved_cells, c) {
                                    // the digit of the subband is alone in the row of the cell
                                    lemma_solved_alone(
                                        old_possible_cells,
                                        c,
                                        shrink,
                                        possible_cells,
                                        possible_columns,
                                        locked_candidates_intersection,
                                        solved_cells,
                                    );
                                    lemma_within_mask(possible_cells, open_cells_beside(c), r.0, 0);
                                    lemma_within_mask(possible_cells, open_cells_beside(c), r.1, 0);
                                    lemma_within_mask(possible_cells, open_cells_beside(c), r.2, 0);
                                    lemma_geometry(c, r.0);
                                    lemma_geometry(c, r.1);
                                    lemma_geometry(c, r.2);
                                    assert(c == r.0 || c == r.1 || c == r.2);
                                    assert(s[i] == d + 1);
                                }
                            }
                            before.lemma_restrict_admits(self, other_subband as int, nonconflicting_cells, s);
                        }
                        if self.admits(s) {
                            self.lemma_admits_within(&before, s);
                        }
                    }
                    lemma_within_chain(self.possible_cells@, before.possible_cells@, third.possible_cells@);
                }
            }
            digit += 1;
        }
        let ghost fourth = *self;
        self.unsolved_cells[band] &= nonconflicting_cells;
        self.prev_possible_cells[subband] = possible_cells;
        proof {
            lemma_within_chain(self.possible_cells@, third.possible_cells@, old(self).possible_cells@);
            assert forall|s: Seq<u8>| is_solution(s) implies (#[trigger] self.admits(s) <==> old(self).admits(s)) by {
                self.lemma_admits_same(&fourth, s);
            }
            assert forall|i: int| 0 <= i < 27 implies #[trigger] self.prev_possible_cells[i] <= ALL by {
                assert(fourth.prev_possible_cells[i] <= ALL);
                assert(fourth.possible_cells[subband as int] <= ALL);
            }
            assert forall|k2: int| 0 <= k2 < 3 implies #[trigger] self.unsolved_cells[k2] & fourth.unsolved_cells[k2]
                == self.unsolved_cells[k2] by {
                lemma_mask_ops(fourth.unsolved_cells[k2], solved_cells, 0);
            }
            assert(fourth.unsolved_cells == old(self).unsolved_cells);
            assert(within(self.unsolved_cells@, old(self).unsolved_cells@));
            assert(self.alone_marked()) by {
                assert forall|i: int, c: u32|
                    0 <= i < 27 && c < 27 && #[trigger] in_mask(self.prev_possible_cells[i], c)
                        && self.prev_possible_cells[i] & open_cells_beside(c) == self.prev_possible_cells[i]
                        implies !in_mask(self.unsolved_cells[i % 3], c) by {
                    lemma_mask_ops(fourth.unsolved_cells[i % 3], solved_cells, c);
                    if i == subband {
                        lemma_alone_is_solved(
                            old_possible_cells,
                            c,
                            shrink,
                            possible_cells,
                            possible_columns,
                            locked_candidates_intersection,
                            solved_cells,
                        );
                    } else {
                        assert(in_mask(fourth.prev_possible_cells[i], c));
                        assert(!in_mask(fourth.unsolved_cells[i % 3], c));
                        lemma_within_mask(self.unsolved_cells[i % 3], fourth.unsolved_cells[i % 3], c, 0);
                    }
                }
            }
            // each newly solved cell holds the digit of the subband
            assert forall|k2: int, c: u32|
                0 <= k2 < 3 && c < 27 && !#[trigger] in_mask(self.unsolved_cells[k2], c) && in_mask(
                    fourth.unsolved_cells[k2],
                    c,
                ) implies exists|d2: int| 0 <= d2 < 9 && #[trigger] fourth.placed_as(k2, c, d2) by {
                lemma_mask_ops(fourth.unsolved_cells[k2], solved_cells, c);
                assert(k2 == k);
                assert(in_mask(solved_cells, c));
                lemma_solved_alone(
                    old_possible_cells,
                    c,
                    shrink,
                    possible_cells,
                    possible_columns,
                    locked_candidates_intersection,
                    solved_cells,
                );
                assert(fourth.open(d, k) == possible_cells);
                assert forall|e: int| 0 <= e < 9 && e != d implies !in_mask(#[trigger] fourth.open(e, k), c) by {
                    lemma_mask_ops(third.possible_cells[3 * e + k], solved_cells, c);
                }
                assert forall|k3: int| 0 <= k3 < 3 && k3 != k implies #[trigger] fourth.open(d, k3) & column_cells(c)
                    == 0 by {
                    let j = 3 * d + k3;
                    assert(j == neighbour1 || j == neighbour2);
                    assert(fourth.possible_cells[j] == third.possible_cells[j]);
                    let before_mask = if j == neighbour1 { first.possible_cells[j] } else { second.possible_cells[j] };
                    assert(third.possible_cells[j] == before_mask & nonconflicting_neighbours);
                    lemma_mask_ops(before_mask, nonconflicting_neighbours, 0);
                    lemma_within_mask(
                        before_mask & nonconflicting_neighbours,
                        nonconflicting_neighbours,
                        0,
                        column_cells(c),
                    );
                }
                assert(fourth.placed_as(k, c, d));
            }
            fourth.lemma_marked(self);
        }
        Ok(())
    }

    /// A digit in place in a neighbouring band stays open there when the
    /// columns of `subband` are closed.
    proof fn lemma_neighbour_open(&self, subband: int, neighbour: int, mask: u32)
        requires
            self.wf(),
            0 <= subband < 27,
            0 <= neighbour < 27,
            neighbour / 3 == subband / 3,
            neighbour != subband,
            mask == open_cells_by_columns(columns_of(self.possible_cells[subband])),
        ensures
            forall|c: u32|
                c < 27 && !in_mask(self.unsolved_cells[neighbour % 3], c) && #[trigger] in_mask(
                    self.possible_cells[neighbour],
                    c,
                ) ==> in_mask(mask, c),
    {
        let (d, k, k2) = (subband / 3, subband % 3, neighbour % 3);
        assert forall|c: u32|
            c < 27 && !in_mask(self.unsolved_cells[k2], c) && #[trigger] in_mask(
                self.possible_cells[neighbour],
                c,
            ) implies in_mask(mask, c) by {
            let d2 = choose|d2: int| 0 <= d2 < 9 && #[trigger] self.placed_as(k2, c, d2);
            assert(self.placed_as(k2, c, d2));
            assert(self.open(d, k2) == self.possible_cells[neighbour]);
            assert(d2 == d);
            assert(self.open(d, k) & column_cells(c) == 0);
            lemma_column_free(self.possible_cells[subband], c);
        }
    }

    /// A solution stays admitted when the columns of `subband` are closed in
    /// a neighbouring band.
    proof fn lemma_neighbour_admits(&self, after: &Self, subband: int, neighbour: int, mask: u32, s: Seq<u8>)
        requires
            self.bounded(),
            0 <= subband < 27,
            0 <= neighbour < 27,
            neighbour / 3 == subband / 3,
            neighbour != subband,
            mask == open_cells_by_columns(columns_of(self.possible_cells[subband])),
            after.possible_cells@ == self.possible_cells@.update(neighbour, self.possible_cells[neighbour] & mask),
            is_solution(s),
            self.admits(s),
        ensures
            after.admits(s),
    {
        let (d, k, k2) = (subband / 3, subband % 3, neighbour % 3);
        let r = self.lemma_admitted_band(s, d, k);
        assert(self.open(d, k) == self.possible_cells[subband]);
        assert(self.possible_cells[subband] <= ALL);
        assert forall|i: int| 27 * k2 <= i < 27 * k2 + 27 && #[trigger] s[i] == neighbour / 3 + 1 implies in_mask(
            mask,
            (i % 27) as u32,
        ) by {
            lemma_band_cell(i as u32);
            let e = (i % 27) as u32;
            assert(i / 27 == k2);
            assert(i % 9 != r.0 % 9 && i % 9 != r.1 % 9 && i % 9 != r.2 % 9);
            lemma_columns_open(self.possible_cells[subband], r.0, r.1, r.2, e);
        }
        self.lemma_restrict_admits(after, neighbour, mask, s);
    }

    /// What the state admits, as a predicate.
    pub open spec fn admitting(&self) -> spec_fn(Seq<u8>) -> bool {
        |s: Seq<u8>| self.admits(s)
    }

    /// What the state admits with digit `v` at `cell`, as a predicate.
    pub open spec fn admitting_digit(&self, cell: int, v: int) -> spec_fn(Seq<u8>) -> bool {
        |s: Seq<u8>| self.admits(s) && s[cell] == v
    }

    /// The weight is not negative.
    proof fn lemma_weight(&self)
        ensures
            self.weight() >= 0,
    {
        lemma_total_positive(self.possible_cells@);
    }

    /// Settles the subbands one after the other until none has changed
    /// since it was last settled. Fails where a digit has no place left.
    fn find_locked_candidates_and_update(&mut self) -> (r: Result<(), Unsolvable>)
        requires
            old(self).wf(),
        ensures
            r is Err ==> forall|s: Seq<u8>| is_solution(s) ==> !old(self).admits(s),
            r is Ok ==> {
                &&& final(self).wf()
                &&& final(self).settled()
                &&& within(final(self).possible_cells@, old(self).possible_cells@)
                &&& within(final(self).unsolved_cells@, old(self).unsolved_cells@)
                &&& forall|i: int|
                    0 <= i < 27 && old(self).prev_possible_cells[i] != NONE ==> #[trigger] final(self).possible_cells[i]
                        != NONE
                &&& final(self).bivalue_cells == old(self).bivalue_cells
                &&& final(self).weight() <= old(self).weight()
                &&& forall|s: Seq<u8>| is_solution(s) ==> (#[trigger] final(self).admits(s) <==> old(self).admits(s))
            },
    {
        proof {
            assert forall|i: int| 0 <= i < 27 implies #[trigger] self.possible_cells@[i] & old(self).possible_cells@[i]
                == self.possible_cells@[i] by {
                lemma_mask_ops(self.possible_cells@[i], 0, 0);
            }
        }
        proof {
            assert forall|k: int| 0 <= k < 3 implies #[trigger] self.unsolved_cells@[k] & old(self).unsolved_cells@[k]
                == self.unsolved_cells@[k] by {
                lemma_mask_ops(self.unsolved_cells@[k], 0, 0);
            }
        }
        loop
            invariant
                self.wf(),
                within(self.possible_cells@, old(self).possible_cells@),
                within(self.unsolved_cells@, old(self).unsolved_cells@),
                self.bivalue_cells == old(self).bivalue_cells,
                forall|s: Seq<u8>| is_solution(s) ==> (#[trigger] self.admits(s) <==> old(self).admits(s)),
                forall|i: int|
                    0 <= i < 27 && old(self).prev_possible_cells[i] != NONE ==> #[trigger] self.prev_possible_cells[i]
                        != NONE,
            decreases self.weight(), differing(self.possible_cells@, self.prev_possible_cells@, 27),
        {
            // Repeat until nothing can be found or updated any more
            let mut found_nothing = true;
            let ghost start = *self;
            let mut subband: usize = 0;
            proof {
                self.lemma_weight();
                lemma_differing_none(self.possible_cells@, self.prev_possible_cells@, 27);
            }
            while subband < 27
                invariant
                    subband <= 27,
                    self.wf(),
                    within(self.possible_cells@, old(self).possible_cells@),
                    within(self.unsolved_cells@, old(self).unsolved_cells@),
                    forall|i: int|
                        0 <= i < 27 && old(self).prev_possible_cells[i] != NONE
                            ==> #[trigger] self.prev_possible_cells[i] != NONE,
                    self.bivalue_cells == old(self).bivalue_cells,
                    forall|s: Seq<u8>| is_solution(s) ==> (#[trigger] self.admits(s) <==> old(self).admits(s)),
                    found_nothing ==> self.possible_cells == start.possible_cells && self.prev_possible_cells
                        == start.prev_possible_cells,
                    found_nothing ==> forall|j: int|
                        0 <= j < subband ==> #[trigger] self.possible_cells[j] == self.prev_possible_cells[j],
                    !found_nothing ==> self.weight() < start.weight() || (self.weight() == start.weight()
                        && differing(self.possible_cells@, self.prev_possible_cells@, 27) < differing(
                        start.possible_cells@,
                        start.prev_possible_cells@,
                        27,
                    )),
                    self.weight() >= 0,
                    differing(self.possible_cells@, self.prev_possible_cells@, 27) >= 0,
                decreases 27 - subband,
            {
                if self.possible_cells[subband] != self.prev_possible_cells[subband] {
                    found_nothing = false;
                    let ghost before = *self;
                    let settled = self.find_locked_candidates_and_update_subband(subband);
                    if settled.is_err() {
                        return Err(Unsolvable {});
                    }
                    proof {
                        lemma_within_chain(self.possible_cells@, before.possible_cells@, old(self).possible_cells@);
                        lemma_within_chain(self.unsolved_cells@, before.unsolved_cells@, old(self).unsolved_cells@);
                        lemma_total_within(self.possible_cells@, before.possible_cells@);
                        self.lemma_weight();
                        lemma_differing_none(self.possible_cells@, self.prev_possible_cells@, 27);
                        if self.weight() == before.weight() {
                            assert(self.possible_cells@ == before.possible_cells@);
                            lemma_differing_update(
                                before.possible_cells@,
                                before.prev_possible_cells@,
                                27,
                                subband as int,
                                before.possible_cells@[subband as int],
                            );
                        }
                    }
                }
                subband += 1;
            }
            if found_nothing {
                proof {
                    lemma_total_within(self.possible_cells@, old(self).possible_cells@);
                }
                return Ok(());
            }
        }
    }

    /// Settles the subbands and gives the cells with one candidate their
    /// digit, in turn, until neither changes the state. Fails where the
    /// limit is reached or the state admits nothing.
    fn solve(&mut self, limit: usize, solutions: &Solutions) -> (r: Result<(), Unsolvable>)
        requires
            old(self).wf(),
            solutions.wf(),
        ensures
            r is Err ==> solutions.found().len() >= limit || forall|s: Seq<u8>|
                is_solution(s) ==> !old(self).admits(s),
            r is Ok ==> {
                &&& final(self).wf()
                &&& solutions.found().len() < limit
                &&& final(self).weight() <= old(self).weight()
                &&& final(self).solved() || (final(self).settled() && final(self).branching())
                &&& forall|s: Seq<u8>| is_solution(s) ==> (#[trigger] final(self).admits(s) <==> old(self).admits(s))
            },
    {
        // Force a recursion stop if we're at the solution limit
        if solutions.len() >= limit {
            return Err(Unsolvable {});
        }
        loop
            invariant
                self.wf(),
                solutions.found().len() < limit,
                self.weight() <= old(self).weight(),
                forall|s: Seq<u8>| is_solution(s) ==> (#[trigger] self.admits(s) <==> old(self).admits(s)),
            decreases self.weight(),
        {
            proof {
                self.lemma_weight();
            }
            let locked = self.find_locked_candidates_and_update();
            if locked.is_err() {
                return Err(Unsolvable {});
            }
            if self.is_solved() {
                return Ok(());
            }
            let ghost before = *self;
            match self.find_naked_singles() {
                Err(_) => {
                    return Err(Unsolvable {});
                },
                Ok(applied) => {
                    if !applied {
                        proof {
                            assert(self.settled()) by {
                                assert forall|i: int| 0 <= i < 27 implies #[trigger] self.possible_cells[i]
                                    == self.prev_possible_cells[i] by {
                                    assert(before.possible_cells[i] == before.prev_possible_cells[i]);
                                }
                            }
                        }
                        return Ok(());
                    }
                    proof {
                        self.lemma_weight();
                    }
                },
            }
        }
    }

    /// The highest digit up to `n` that can still go to cell `i`, or 0.
    pub closed spec fn top_digit(&self, i: int, n: int) -> int
        decreases n,
    {
        if n <= 0 {
            0
        } else if self.candidate(i, n) {
            n
        } else {
            self.top_digit(i, n - 1)
        }
    }

    /// The grid that holds at each cell the highest digit that can go there.
    pub closed spec fn grid(&self) -> Seq<u8> {
        Seq::new(81, |i: int| self.top_digit(i, 9) as u8)
    }

    /// The highest candidate is within the digits looked at, and is the
    /// candidate where there is only one.
    proof fn lemma_top_digit(&self, i: int, n: int, v: int)
        requires
            0 <= n <= 9,
        ensures
            0 <= self.top_digit(i, n) <= n,
            1 <= v <= n && self.candidate(i, v) && (forall|w: int| 1 <= w <= 9 && w != v ==> !#[trigger] self.candidate(
                i,
                w,
            )) ==> self.top_digit(i, n) == v,
        decreases n,
    {
        if n > 0 {
            self.lemma_top_digit(i, n - 1, v);
        }
    }

    /// Extract the solution as a grid from the current solver state.
    fn extract_solution(&self) -> (r: Sudoku)
        ensures
            r@ == self.grid(),
    {
        let mut sudoku = [0u8; 81];
        let mut cell: usize = 0;
        while cell < 81
            invariant
                cell <= 81,
                forall|i: int| 0 <= i < cell ==> #[trigger] sudoku[i] == self.top_digit(i, 9) as u8,
            decreases 81 - cell,
        {
            let band = cell / 27;
            let cell_mask: u32 = 1u32 << ((cell % 27) as u32);
            let mut value: u8 = 0;
            let mut digit: usize = 0;
            while digit < 9
                invariant
                    digit <= 9,
                    cell < 81,
                    band == cell / 27,
                    cell_mask == 1u32 << ((cell % 27) as u32),
                    value == self.top_digit(cell as int, digit as int),
                    value <= digit,
                decreases 9 - digit,
            {
                if self.possible_cells[digit * 3 + band] & cell_mask != NONE {
                    value = digit as u8 + 1;
                }
                digit += 1;
            }
            sudoku[cell] = value;
            cell += 1;
        }
        let r = Sudoku(sudoku);
        assert(r@ =~= self.grid());
        r
    }

    /// Where every cell holds a digit, the state admits one solution: the
    /// grid of those digits.
    proof fn lemma_solved_grid(&self)
        requires
            self.wf(),
            self.solved(),
        ensures
            is_solution(self.grid()),
            self.admits(self.grid()),
            forall|s: Seq<u8>| is_solution(s) && #[trigger] self.admits(s) ==> s == self.grid(),
    {
        let g = self.grid();
        // each cell holds one digit, which none of its peers can take
        assert forall|i: int| 0 <= i < 81 implies 1 <= #[trigger] g[i] <= 9 && self.candidate(i, g[i] as int) && (forall|
            w: int,
        |
            1 <= w <= 9 && w != g[i] ==> !#[trigger] self.candidate(i, w)) && (forall|j: int|
            0 <= j < 81 && peers(i, j) ==> !#[trigger] self.candidate(j, g[i] as int)) by {
            let (k, c) = (i / 27, (i % 27) as u32);
            lemma_band_cell(i as u32);
            lemma_mask_ops(0, 0, c);
            assert(!in_mask(self.unsolved_cells[k], c));
            let d = choose|d: int| 0 <= d < 9 && #[trigger] self.placed_as(k, c, d);
            assert(self.placed_as(k, c, d));
            assert(self.candidate(i, d + 1));
            assert forall|w: int| 1 <= w <= 9 && w != d + 1 implies !#[trigger] self.candidate(i, w) by {
                assert(!in_mask(self.open(w - 1, k), c));
            }
            self.lemma_top_digit(i, 9, d + 1);
            assert(g[i] == d + 1);
            assert forall|j: int| 0 <= j < 81 && peers(i, j) implies !#[trigger] self.candidate(j, g[i] as int) by {
                let (k2, e) = (j / 27, (j % 27) as u32);
                lemma_band_cell(j as u32);
                lemma_geometry(c, e);
                if k2 == k {
                    lemma_within_mask(self.open(d, k), open_cells_beside(c), e, 0);
                } else {
                    assert(self.open(d, k2) & column_cells(c) == 0);
                    lemma_mask_ops(self.open(d, k2), column_cells(c), e);
                }
            }
        }
        assert(is_solution(g)) by {
            assert forall|i: int, j: int|
                0 <= i < 81 && 0 <= j < 81 && peers(i, j) && #[trigger] g[i] != 0 implies g[i] != #[trigger] g[j] by {
                assert(self.candidate(j, g[j] as int));
                assert(!self.candidate(j, g[i] as int));
            }
        }
        assert forall|s: Seq<u8>| is_solution(s) && #[trigger] self.admits(s) implies s == g by {
            assert forall|i: int| 0 <= i < 81 implies s[i] == g[i] by {
                assert(self.candidate(i, s[i] as int));
                assert(s[i] != 0 && s[i] <= 9);
                assert(1 <= g[i] <= 9);
            }
            assert(s =~= g);
        }
    }

    /// Store the current solution
    fn store_solution(&self, solutions: &mut Solutions)
        requires
            self.wf(),
            self.solved(),
            old(solutions).wf(),
            old(solutions).found().len() < usize::MAX,
        ensures
            final(solutions).wf(),
            (*final(solutions) is Count) == (*old(solutions) is Count),
            final(solutions).found() == old(solutions).found().push(self.grid()),
    {
        let grid = self.extract_solution();
        solutions.add(grid);
    }

    /// A solution that the state admits after a digit was inserted at a
    /// cell has the digit there.
    proof fn lemma_inserted_digit(&self, subband: int, c: u32, s: Seq<u8>)
        requires
            0 <= subband < 27,
            c < 27,
            self.possible_cells[subband] & open_cells_beside(c) == self.possible_cells[subband],
            is_solution(s),
            self.admits(s),
        ensures
            s[27 * (subband % 3) + c] == subband / 3 + 1,
    {
        let (d, k) = (subband / 3, subband % 3);
        let r = self.lemma_admitted_band(s, d, k);
        let p = self.possible_cells[subband];
        assert(self.open(d, k) == p);
        lemma_within_mask(p, open_cells_beside(c), r.0, 0);
        lemma_within_mask(p, open_cells_beside(c), r.1, 0);
        lemma_within_mask(p, open_cells_beside(c), r.2, 0);
        lemma_geometry(c, r.0);
        lemma_geometry(c, r.1);
        lemma_geometry(c, r.2);
        assert(c == r.0 || c == r.1 || c == r.2);
    }

    /// Explores the state with the digit of `subband` at the cell `mask`.
    fn try_digit(&mut self, subband: usize, mask: u32, limit: usize, solutions: &mut Solutions) -> (c: Ghost<u32>)
        requires
            old(self).wf(),
            old(self).settled(),
            subband < 27,
            mask != 0,
            mask <= ALL,
            mask & ((mask - 1) as u32) == 0,
            old(self).possible_cells[subband as int] & mask != 0,
            old(self).unsolved_cells[subband as int % 3] & mask != 0,
            old(solutions).wf(),
            old(solutions).found().len() <= limit,
        ensures
            c@ < 27,
            c@ == u32_trailing_zeros(mask),
            mask == 1u32 << c@,
            final(solutions).wf(),
            (*final(solutions) is Count) == (*old(solutions) is Count),
            explored(
                old(solutions).found(),
                final(solutions).found(),
                old(self).admitting_digit(27 * (subband as int % 3) + c@, subband as int / 3 + 1),
                limit as int,
            ),
        decreases old(self).weight(), 0int,
    {
        let Ghost(c) = self.insert_value_by_mask(subband, mask);
        let ghost inserted = *self;
        let ghost cell = 27 * (subband as int % 3) + c;
        let ghost v = subband as int / 3 + 1;
        let ghost target = old(self).admitting_digit(cell, v);
        proof {
            old(self).lemma_weight();
            self.lemma_weight();
            lemma_mask_ops(old(self).possible_cells[subband as int], open_cells_beside(c), 0);
            assert forall|s: Seq<u8>| is_solution(s) implies (#[trigger] inserted.admits(s) <==> target(s)) by {
                if inserted.admits(s) {
                    inserted.lemma_admits_within(old(self), s);
                    inserted.lemma_inserted_digit(subband as int, c, s);
                }
                if old(self).admits(s) && s[cell] == v {
                    old(self).lemma_insert_admits(&inserted, subband as int, c, s);
                }
            }
        }
        proof {
            assert(old(self).possible_cells[subband as int] == old(self).prev_possible_cells[subband as int]);
            assert(inserted.weight() < old(self).weight());
        }
        let solved = self.solve(limit, solutions);
        if solved.is_ok() {
            let ghost ready = *self;
            proof {
                assert(ready.weight() < old(self).weight());
                ready.lemma_weight();
            }
            self.guess(limit, solutions);
            proof {
                lemma_explored_same(
                    old(solutions).found(),
                    solutions.found(),
                    ready.admitting(),
                    target,
                    limit as int,
                    0,
                    9,
                );
            }
        } else {
            proof {
                lemma_explored_none(old(solutions).found(), target, limit as int, 0, 9);
            }
        }
        Ghost(c)
    }

    /// If the puzzle is not solved, choose an unsolved cell and branch on it
    fn guess(&mut self, limit: usize, solutions: &mut Solutions)
        requires
            old(self).wf(),
            old(self).solved() || (old(self).settled() && old(self).branching()),
            old(solutions).wf(),
            old(solutions).found().len() < limit,
        ensures
            final(solutions).wf(),
            (*final(solutions) is Count) == (*old(solutions) is Count),
            explored(old(solutions).found(), final(solutions).found(), old(self).admitting(), limit as int),
        decreases old(self).weight(), 3int,
    {
        if self.is_solved() {
            self.store_solution(solutions);
            proof {
                self.lemma_solved_grid();
                let (pre, post) = (old(solutions).found(), solutions.found());
                assert(post.subrange(0, pre.len() as int) =~= pre);
                assert(post[pre.len() as int] == self.grid());
                assert forall|s: Seq<u8>| is_solution(s) && #[trigger] (self.admitting())(s) implies exists|j: int|
                    pre.len() <= j < post.len() && #[trigger] post[j] == s by {
                    assert(post[pre.len() as int] == s);
                }
            }
        } else {
            let branched = self.guess_bivalue(limit, solutions);
            if branched.is_ok() {
                self.guess_some_cell(limit, solutions);
            }
        }
    }

    /// Look for a bivalue cell to guess on and branch on it. We save these
    /// cells while checking for naked singles, so this is basically a lookup.
    /// Fails once it has branched: the state is then used up. It branches
    /// where a cell is noted as having two candidates, on the first such
    /// cell of the first band that has one.
    fn guess_bivalue(&mut self, limit: usize, solutions: &mut Solutions) -> (r: Result<(), Unsolvable>)
        requires
            old(self).wf(),
            !old(self).solved(),
            old(self).settled(),
            old(self).branching(),
            old(solutions).wf(),
            old(solutions).found().len() < limit,
        ensures
            r is Ok <==> forall|k: int| 0 <= k < 3 ==> #[trigger] old(self).bivalue_cells[k] == NONE,
            r is Err ==> rising(old(solutions).found(), final(solutions).found(), old(self).bivalue_cell()),
            final(solutions).wf(),
            (*final(solutions) is Count) == (*old(solutions) is Count),
            r is Ok ==> *final(self) == *old(self) && *final(solutions) == *old(solutions),
            r is Err ==> explored(
                old(solutions).found(),
                final(solutions).found(),
                old(self).admitting(),
                limit as int,
            ),
        decreases old(self).weight(), 2int,
    {
        let mut band: usize = 0;
        while band < 3
            invariant
                band <= 3,
                *self == *old(self),
                *solutions == *old(solutions),
                self.wf(),
                !self.solved(),
                self.settled(),
                self.branching(),
                solutions.wf(),
                solutions.found().len() < limit,
                forall|k: int| 0 <= k < band ==> #[trigger] self.bivalue_cells[k] == NONE,
            decreases 3 - band,
        {
            // Get the first bivalue cell, if it exists
            let bivalue = self.bivalue_cells[band];
            match MaskIter::<u32>::from(bivalue).peek() {
                None => {},
                Some(cell_mask) => {
                    proof {
                        self.lemma_bivalue(band as int, cell_mask);
                    }
                    self.branch_on(band, cell_mask, 2, limit, solutions);
                    return Err(Unsolvable {});
                },
            }
            band += 1;
        }
        Ok(())
    }

    /// The first cell of the cells noted as having two candidates has two,
    /// and is not solved.
    proof fn lemma_bivalue(&self, k: int, m: u32)
        requires
            self.wf(),
            self.branching(),
            0 <= k < 3,
            self.bivalue_cells[k] != 0,
            m == lowest32(self.bivalue_cells[k]),
        ensures
            m != 0,
            m <= ALL,
            m & ((m - 1) as u32) == 0,
            u32_trailing_zeros(m) < 27,
            m == 1u32 << u32_trailing_zeros(m),
            self.candidates_below(k, u32_trailing_zeros(m), 9) == 2,
            self.unsolved_cells[k] & m != 0,
    {
        let x = self.bivalue_cells[k];
        let c = u32_trailing_zeros(m);
        axiom_u32_trailing_zeros(m);
        lemma_gap(x);
        lemma_low_cell(x, m, c);
        assert(in_mask(x, c));
        assert(self.candidates_below(k, c, 9) >= 1);
        if !in_mask(self.unsolved_cells[k], c) {
            self.lemma_placed_once(k, c);
        }
        lemma_mask_ops(self.unsolved_cells[k], m, c);
    }

    /// A cell that holds a digit has one candidate.
    proof fn lemma_placed_once(&self, k: int, c: u32)
        requires
            self.wf(),
            0 <= k < 3,
            c < 27,
            !in_mask(self.unsolved_cells[k], c),
        ensures
            self.candidates_below(k, c, 9) == 1,
    {
        let d = choose|d: int| 0 <= d < 9 && #[trigger] self.placed_as(k, c, d);
        assert(self.placed_as(k, c, d));
        self.lemma_count_only(k, c, d, 9);
    }

    /// Where a single digit is a candidate, the count is one from that
    /// digit on.
    proof fn lemma_count_only(&self, k: int, c: u32, d: int, n: int)
        requires
            0 <= d < 9,
            0 <= n <= 9,
            in_mask(self.open(d, k), c),
            forall|e: int| 0 <= e < 9 && e != d ==> !in_mask(#[trigger] self.open(e, k), c),
        ensures
            self.candidates_below(k, c, n) == (if n > d { 1int } else { 0int }),
        decreases n,
    {
        if n > 0 {
            self.lemma_count_only(k, c, d, n - 1);
            if n - 1 != d {
                assert(!in_mask(self.open(n - 1, k), c));
            }
        }
    }

    /// Explores the state by the digits that can go to the cell `cell_mask`
    /// of `band`, of which there are `count`: each digit but the last on a
    /// copy of the state, the last on the state itself.
    fn branch_on(
        &mut self,
        band: usize,
        cell_mask: u32,
        count: usize,
        limit: usize,
        solutions: &mut Solutions,
    )
        requires
            old(self).wf(),
            old(self).settled(),
            band < 3,
            cell_mask != 0,
            cell_mask <= ALL,
            cell_mask & ((cell_mask - 1) as u32) == 0,
            u32_trailing_zeros(cell_mask) < 27,
            cell_mask == 1u32 << u32_trailing_zeros(cell_mask),
            old(self).unsolved_cells[band as int] & cell_mask != 0,
            count == old(self).candidates_below(band as int, u32_trailing_zeros(cell_mask), 9),
            count >= 2,
            old(solutions).wf(),
            old(solutions).found().len() < limit,
        ensures
            final(solutions).wf(),
            (*final(solutions) is Count) == (*old(solutions) is Count),
            explored(old(solutions).found(), final(solutions).found(), old(self).admitting(), limit as int),
            rising(
                old(solutions).found(),
                final(solutions).found(),
                27 * band + u32_trailing_zeros(cell_mask) as int,
            ),
        decreases old(self).weight(), 1int,
    {
        let ghost c = u32_trailing_zeros(cell_mask);
        let ghost k = band as int;
        let ghost cell = 27 * k + c;
        let ghost start = *self;
        let ghost pre = solutions.found();
        let ghost target = self.admitting();
        let mut checked: usize = 0;
        let mut digit: usize = 0;
        proof {
            lemma_explored_none(pre, target, limit as int, cell, 0);
            assert forall|s: Seq<u8>| is_solution(s) implies s[cell] > 0 by {}
        }
        while digit < 9
            invariant
                digit <= 9,
                band < 3,
                k == band,
                c == u32_trailing_zeros(cell_mask),
                c < 27,
                cell == 27 * k + c,
                cell_mask == 1u32 << c,
                cell_mask != 0,
                cell_mask <= ALL,
                cell_mask & ((cell_mask - 1) as u32) == 0,
                *self == start,
                start == *old(self),
                self.wf(),
                self.settled(),
                self.unsolved_cells[band as int] & cell_mask != 0,
                target == start.admitting(),
                pre == old(solutions).found(),
                count == start.candidates_below(k, c, 9),
                count >= 2,
                checked == start.candidates_below(k, c, digit as int),
                checked < count,
                solutions.wf(),
                (*solutions is Count) == (*old(solutions) is Count),
                explored_upto(pre, solutions.found(), target, limit as int, cell, digit as int),
                rising(pre, solutions.found(), cell),
            decreases 9 - digit,
        {
            let subband = digit * 3 + band;
            proof {
                lemma_band_cell(cell as u32);
                assert(start.candidate(cell, digit + 1) == in_mask(start.open(digit as int, k), c));
            }
            if self.possible_cells[subband] & cell_mask != NONE {
                let ghost mid = solutions.found();
                if checked + 1 < count {
                    checked += 1;
                    let mut branch = *self;
                    branch.try_digit(subband, cell_mask, limit, solutions);
                    proof {
                        lemma_rising(pre, mid, solutions.found(), start.admitting_digit(cell, digit + 1), cell, digit + 1);
                    }
                } else {
                    self.try_digit(subband, cell_mask, limit, solutions);
                    proof {
                        lemma_rising(pre, mid, solutions.found(), start.admitting_digit(cell, digit + 1), cell, digit + 1);
                        lemma_explored_join(
                            pre,
                            mid,
                            solutions.found(),
                            target,
                            start.admitting_digit(cell, digit + 1),
                            limit as int,
                            cell,
                            digit + 1,
                        );
                        // no further digit can go to the cell
                        start.lemma_count_grows(k, c, digit + 1, 9);
                        start.lemma_rest_explored(pre, solutions.found(), limit as int, cell, digit + 1);
                    }
                    return ;
                }
                proof {
                    lemma_explored_join(
                        pre,
                        mid,
                        solutions.found(),
                        target,
                        start.admitting_digit(cell, digit + 1),
                        limit as int,
                        cell,
                        digit + 1,
                    );
                }
            } else {
                proof {
                    assert forall|s: Seq<u8>| is_solution(s) && #[trigger] target(s) implies s[cell] != digit + 1 by {
                        if s[cell] == digit + 1 {
                            assert(start.candidate(cell, s[cell] as int));
                        }
                    }
                    lemma_explored_skip(pre, solutions.found(), target, limit as int, cell, digit + 1);
                }
            }
            digit += 1;
        }
        proof {
            // not reached: the cell has `count` candidates, and fewer were seen
            assert(false);
        }
    }

    /// Once no digit from `n` on can go to the cell, what was explored up
    /// to `n` is all there is.
    proof fn lemma_rest_explored(&self, pre: Seq<Seq<u8>>, post: Seq<Seq<u8>>, limit: int, cell: int, n: int)
        requires
            0 <= cell < 81,
            0 <= n <= 9,
            explored_upto(pre, post, self.admitting(), limit, cell, n),
            forall|d: int| n <= d < 9 ==> !in_mask(#[trigger] self.open(d, cell / 27), (cell % 27) as u32),
        ensures
            explored(pre, post, self.admitting(), limit),
    {
        let target = self.admitting();
        assert forall|s: Seq<u8>| is_solution(s) && #[trigger] target(s) implies s[cell] <= n by {
            assert(self.candidate(cell, s[cell] as int));
            assert(s[cell] != 0 && s[cell] <= 9);
            if s[cell] > n {
                assert(!in_mask(self.open(s[cell] as int - 1, cell / 27), (cell % 27) as u32));
            }
        }
        assert forall|j: int| pre.len() <= j < post.len() implies is_solution(#[trigger] post[j]) && target(post[j])
            && post[j][0] <= 9 by {
            assert(is_solution(post[j]));
            assert(post[j][0] <= 9);
        }
        if post.len() < limit {
            assert forall|s: Seq<u8>| is_solution(s) && #[trigger] target(s) && s[0] <= 9 implies exists|j: int|
                pre.len() <= j < post.len() && #[trigger] post[j] == s by {
                assert(s[cell] <= n);
            }
        }
    }

    /// Find an unsolved cell and branch on it.
    /// In the vast majority of cases, there is a cell with only 2 candidates,
    /// which means that guess_bivalue() will be called instead of this function.
    /// In cases where there is no bivalue cell it is valuable to find a cell with
    /// few candidates, but an exhaustive search is too expensive.
    /// As a compromise, up to 3 cells are searched and the one with the fewest
    /// candidates is used as the branching point.
    fn guess_some_cell(&mut self, limit: usize, solutions: &mut Solutions)
        requires
            old(self).wf(),
            !old(self).solved(),
            old(self).settled(),
            old(self).branching(),
            old(solutions).wf(),
            old(solutions).found().len() < limit,
        ensures
            final(solutions).wf(),
            (*final(solutions) is Count) == (*old(solutions) is Count),
            explored(old(solutions).found(), final(solutions).found(), old(self).admitting(), limit as int),
        decreases old(self).weight(), 2int,
    {
        let mut best: Option<(usize, usize, u32)> = None;
        let mut band: usize = 0;
        while band < 3
            invariant
                band <= 3,
                self.wf(),
                self.branching(),
                forall|k: int| 0 <= k < band ==> #[trigger] self.unsolved_cells[k] != 0 ==> best.is_some(),
                best matches Some((count, k, m)) ==> {
                    &&& k < 3
                    &&& m != 0
                    &&& m <= ALL
                    &&& m & ((m - 1) as u32) == 0
                    &&& u32_trailing_zeros(m) < 27
                    &&& m == 1u32 << u32_trailing_zeros(m)
                    &&& self.unsolved_cells[k as int] & m != 0
                    &&& count == self.candidates_below(k as int, u32_trailing_zeros(m), 9)
                    &&& count >= 2
                },
            decreases 3 - band,
        {
            // Get first unsolved cell, if it exists
            let unsolved = self.unsolved_cells[band];
            match MaskIter::<u32>::from(unsolved).peek() {
                None => {},
                Some(one_unsolved_cell) => {
                    let ghost c = u32_trailing_zeros(one_unsolved_cell);
                    proof {
                        axiom_u32_trailing_zeros(one_unsolved_cell);
                        lemma_gap(unsolved);
                        lemma_low_cell(unsolved, one_unsolved_cell, c);
                        lemma_mask_ops(unsolved, one_unsolved_cell, c);
                        assert(self.candidates_below(band as int, c, 9) >= 1);
                    }
                    let mut n_candidates: usize = 0;
                    let mut digit: usize = 0;
                    while digit < 9
                        invariant
                            digit <= 9,
                            band < 3,
                            c < 27,
                            one_unsolved_cell == 1u32 << c,
                            n_candidates == self.candidates_below(band as int, c, digit as int),
                            n_candidates <= digit,
                        decreases 9 - digit,
                    {
                        if self.possible_cells[digit * 3 + band] & one_unsolved_cell != NONE {
                            n_candidates += 1;
                        }
                        digit += 1;
                    }
                    let better = match best {
                        None => true,
                        Some((count, _, _)) => n_candidates < count,
                    };
                    if better {
                        best = Some((n_candidates, band, one_unsolved_cell));
                    }
                },
            }
            band += 1;
        }
        match best {
            None => {
                proof {
                    assert(self.unsolved_cells[0] != 0 ==> best.is_some());
                    assert(self.unsolved_cells[1] != 0 ==> best.is_some());
                    assert(self.unsolved_cells[2] != 0 ==> best.is_some());
                    assert(false);
                }
            },
            Some((count, band, unsolved_cell)) => {
                // Check every digit
                self.branch_on(band, unsolved_cell, count, limit, solutions);
            },
        }
    }

    /// Explores the state: settles it and branches until every solution
    /// that it admits is found, or `limit` of them are.
    pub fn solutions_up_to(self, limit: usize, solutions: &mut Solutions)
        requires
            self.wf(),
            old(solutions).wf(),
            old(solutions).found().len() <= limit,
        ensures
            final(solutions).wf(),
            (*final(solutions) is Count) == (*old(solutions) is Count),
            explored(old(solutions).found(), final(solutions).found(), self.admitting(), limit as int),
    {
        let ghost target = self.admitting();
        let mut state = self;
        if state.find_naked_singles().is_ok() {
            if state.solve(limit, solutions).is_ok() {
                let ghost ready = state;
                state.guess(limit, solutions);
                proof {
                    lemma_explored_same(
                        old(solutions).found(),
                        solutions.found(),
                        ready.admitting(),
                        target,
                        limit as int,
                        0,
                        9,
                    );
                }
            } else {
                proof {
                    lemma_explored_none(old(solutions).found(), target, limit as int, 0, 9);
                }
            }
        } else {
            proof {
                lemma_explored_none(old(solutions).found(), target, limit as int, 0, 9);
            }
        }
    }

    /// The solutions that the state admits, up to `limit` of them.
    pub fn all_solutions_up_to(self, limit: usize) -> (r: Vec<Sudoku>)
        requires
            self.wf(),
        ensures
            explored(Seq::<Seq<u8>>::empty(), grids_of(r@), self.admitting(), limit as int),
    {
        let mut solutions = Solutions::keeping();
        self.solutions_up_to(limit, &mut solutions);
        match solutions {
            Solutions::Keep(sols) => sols,
            Solutions::Count(_, _) => Vec::new(),
        }
    }

    /// How many solutions the state admits, counted up to `limit`.
    pub fn count_solutions_up_to(self, limit: usize) -> (r: usize)
        requires
            self.wf(),
        ensures
            exists|found: Seq<Seq<u8>>|
                found.len() == r && #[trigger] explored(Seq::<Seq<u8>>::empty(), found, self.admitting(), limit as int),
    {
        let mut solutions = Solutions::counting();
        self.solutions_up_to(limit, &mut solutions);
        solutions.len()
    }

    /// Whether the puzzle has a solution.
    pub fn has_solution(sudoku: &Sudoku) -> (r: bool)
        ensures
            r <==> exists|s: Seq<u8>| is_completion(sudoku@, s),
    {
        match Self::from_sudoku(sudoku) {
            Err(_) => false,
            Ok(solver) => {
                let count = solver.count_solutions_up_to(1);
                proof {
                    let found = choose|found: Seq<Seq<u8>>|
                        found.len() == count && #[trigger] explored(Seq::<Seq<u8>>::empty(), found, solver.admitting(), 1);
                    if count == 1 {
                        assert(is_solution(found[0]) && (solver.admitting())(found[0]));
                        assert(is_completion(sudoku@, found[0]));
                    } else {
                        assert forall|s: Seq<u8>| !is_completion(sudoku@, s) by {
                            if is_completion(sudoku@, s) {
                                assert((solver.admitting())(s));
                            }
                        }
                    }
                }
                count == 1
            },
        }
    }

    /// Whether the puzzle has one solution and no other.
    pub fn has_unique_solution(sudoku: &Sudoku) -> (r: bool)
        ensures
            r <==> (exists|s: Seq<u8>| is_completion(sudoku@, s)) && (forall|s: Seq<u8>, t: Seq<u8>|
                is_completion(sudoku@, s) && is_completion(sudoku@, t) ==> s == t),
            is_solution(sudoku@) ==> r,
    {
        proof {
            if is_solution(sudoku@) {
                lemma_solution_completes_itself(sudoku@);
            }
        }
        match Self::from_sudoku(sudoku) {
            Err(_) => false,
            Ok(solver) => {
                let count = solver.count_solutions_up_to(2);
                proof {
                    let found = choose|found: Seq<Seq<u8>>|
                        found.len() == count && #[trigger] explored(Seq::<Seq<u8>>::empty(), found, solver.admitting(), 2);
                    if count == 1 {
                        assert(is_solution(found[0]) && (solver.admitting())(found[0]));
                        assert(is_completion(sudoku@, found[0]));
                        assert forall|s: Seq<u8>, t: Seq<u8>|
                            is_completion(sudoku@, s) && is_completion(sudoku@, t) implies s == t by {
                            assert((solver.admitting())(s));
                            assert((solver.admitting())(t));
                            let j = choose|j: int| 0 <= j < found.len() && #[trigger] found[j] == s;
                            let l = choose|l: int| 0 <= l < found.len() && #[trigger] found[l] == t;
                        }
                    } else if count == 0 {
                        assert forall|s: Seq<u8>| !is_completion(sudoku@, s) by {
                            if is_completion(sudoku@, s) {
                                assert((solver.admitting())(s));
                            }
                        }
                    } else {
                        assert(is_solution(found[0]) && (solver.admitting())(found[0]));
                        assert(is_solution(found[1]) && (solver.admitting())(found[1]));
                        assert(is_completion(sudoku@, found[0]) && is_completion(sudoku@, found[1]));
                        assert(found[0] != found[1]);
                    }
                }
                count == 1
            },
        }
    }

    /// How many solutions the puzzle has.
    pub fn count_solutions(sudoku: &Sudoku) -> (r: usize)
        ensures
            exists|found: Seq<Seq<u8>>|
                found.len() == r && #[trigger] explored(
                    Seq::<Seq<u8>>::empty(),
                    found,
                    completing(sudoku@),
                    usize::MAX as int,
                ),
            r == 0 <==> forall|s: Seq<u8>| !is_completion(sudoku@, s),
            is_solution(sudoku@) ==> r == 1,
    {
        let ghost none = Seq::<Seq<u8>>::empty();
        let ghost target = completing(sudoku@);
        match Self::from_sudoku(sudoku) {
            Err(_) => {
                proof {
                    lemma_explored_none(none, target, usize::MAX as int, 0, 9);
                    if is_solution(sudoku@) {
                        lemma_solution_completes_itself(sudoku@);
                    }
                    assert(none.len() == 0 && explored(none, none, completing(sudoku@), usize::MAX as int));
                }
                0
            },
            Ok(solver) => {
                let count = solver.count_solutions_up_to(usize::MAX);
                proof {
                    let found = choose|found: Seq<Seq<u8>>|
                        found.len() == count && #[trigger] explored(none, found, solver.admitting(), usize::MAX as int);
                    lemma_explored_same(none, found, solver.admitting(), target, usize::MAX as int, 0, 9);
                    assert(found.len() == count && explored(none, found, completing(sudoku@), usize::MAX as int));
                    if count == 0 {
                        assert forall|s: Seq<u8>| !is_completion(sudoku@, s) by {
                            if is_completion(sudoku@, s) {
                                assert(target(s));
                            }
                        }
                    } else {
                        assert(is_solution(found[0]) && target(found[0]));
                    }
                    if is_solution(sudoku@) {
                        lemma_solution_completes_itself(sudoku@);
                        assert(target(sudoku@));
                        if count >= 2 {
                            assert(is_solution(found[0]) && target(found[0]));
                            assert(is_solution(found[1]) && target(found[1]));
                            assert(found[0] != found[1]);
                        }
                    }
                }
                count
            },
        }
    }
}

/// The completions of a grid, as a predicate.
pub open spec fn completing(grid: Seq<u8>) -> spec_fn(Seq<u8>) -> bool {
    |s: Seq<u8>| is_completion(grid, s)
}

/// A solution is its own completion, and its only one.
pub proof fn lemma_solution_completes_itself(s: Seq<u8>)
    requires
        is_solution(s),
    ensures
        is_completion(s, s),
        forall|t: Seq<u8>| is_completion(s, t) ==> t == s,
{
    assert forall|t: Seq<u8>| is_completion(s, t) implies t == s by {
        assert forall|i: int| 0 <= i < 81 implies t[i] == s[i] by {
            assert(s[i] != 0);
        }
        assert(t =~= s);
    }
}

/// The sum of masks is not negative.
proof fn lemma_total_positive(a: Seq<u32>)
    ensures
        total(a) >= 0,
    decreases a.len(),
{
    if a.len() > 0 {
        lemma_total_positive(a.drop_last());
    }
}

/// Two predicates that agree on the solutions have explored the same.
proof fn lemma_explored_same(
    pre: Seq<Seq<u8>>,
    post: Seq<Seq<u8>>,
    f: spec_fn(Seq<u8>) -> bool,
    g: spec_fn(Seq<u8>) -> bool,
    limit: int,
    cell: int,
    n: int,
)
    requires
        explored_upto(pre, post, f, limit, cell, n),
        forall|s: Seq<u8>| is_solution(s) ==> (#[trigger] f(s) <==> g(s)),
    ensures
        explored_upto(pre, post, g, limit, cell, n),
{
    assert forall|j: int| pre.len() <= j < post.len() implies is_solution(#[trigger] post[j]) && g(post[j])
        && post[j][cell] <= n by {
        assert(f(post[j]));
    }
    if post.len() < limit {
        assert forall|s: Seq<u8>| is_solution(s) && #[trigger] g(s) && s[cell] <= n implies exists|j: int|
            pre.len() <= j < post.len() && #[trigger] post[j] == s by {
            assert(f(s));
        }
    }
}

/// The lowest cell of a mask, which is in the mask.
proof fn lemma_low_cell(x: u32, m: u32, c: u32)
    requires
        x != 0,
        x <= 0o777_777_777,
        m == x ^ (x & ((x - 1) as u32)),
        c < 32,
        (m >> c) & 1 == 1,
    ensures
        m == 1u32 << c,
        c < 27,
        in_mask(x, c),
        m != 0,
        m <= 0o777_777_777,
        m & ((m - 1) as u32) == 0,
        x & m != 0,
{
    lemma_cells(x, 0, m, c);
}

/// Being within goes through a state in between.
proof fn lemma_within_chain(a: Seq<u32>, b: Seq<u32>, c: Seq<u32>)
    requires
        within(a, b),
        within(b, c),
    ensures
        within(a, c),
{
    assert forall|i: int| 0 <= i < a.len() implies #[trigger] a[i] & c[i] == a[i] by {
        assert(a[i] & b[i] == a[i]);
        assert(b[i] & c[i] == b[i]);
        lemma_within_mask(a[i], b[i], 0, c[i]);
    }
}

/// The cells of a band outside a mask.
proof fn lemma_not_mask(a: u32, c: u32)
    requires
        c < 27,
    ensures
        in_mask(!a, c) <==> !in_mask(a, c),
        (0o777_777_777u32 & !a) <= 0o777_777_777,
{
    lemma_cells(a, 0, 0, c);
}

/// A mask that is not empty has a lowest cell.
proof fn lemma_gap(x: u32)
    requires
        x != 0,
    ensures
        x ^ (x & ((x - 1) as u32)) != 0,
{
    lemma_cells(x, 0, 0, 0);
}

/// The lowest cell of a mask within `singles`: what is left without it is
/// within `singles` too.
proof fn lemma_lowest(x: u32, singles: u32)
    requires
        x != 0,
        x & singles == x,
    ensures
        (x & ((x - 1) as u32)) & singles == x & ((x - 1) as u32),
        (x ^ (x & ((x - 1) as u32))) & singles == x ^ (x & ((x - 1) as u32)),
        (x ^ (x & ((x - 1) as u32))) | (x & ((x - 1) as u32)) == x,
        x & ((x - 1) as u32) <= x,
{
    lemma_cells(x, singles, 0, 0);
}

/// A mask without its lowest cell holds the other cells of the mask; and
/// a mask that is cut to a second mask lies within it.
proof fn lemma_rest(x: u32, y: u32, e: u32, c: u32)
    ensures
        (x & y) & y == x & y,
        x != 0 && c < 32 && x ^ (x & ((x - 1) as u32)) == 1u32 << c && e < 27 ==> (in_mask(x & ((x - 1) as u32), e)
            <==> in_mask(x, e) && e != c),
{
    lemma_cells(x, y, e, c);
}

/// A cell among the unsolved cells that `mask` selects is unsolved.
proof fn lemma_unsolved_single(unsolved: u32, mask: u32, m: u32)
    requires
        m != 0,
        m & (mask & unsolved) == m,
    ensures
        unsolved & m != 0,
{
    lemma_cells(unsolved, mask, m, 0);
}

/// What holds of the lowest cell of a mask, and of masks within masks.
proof fn lemma_cells(x: u32, y: u32, m: u32, c: u32)
    by (bit_vector)
    ensures
        (x != 0) ==> (x ^ (x & ((x - 1) as u32)) != 0),
        (x != 0) && (x & y == x) ==> ((x & ((x - 1) as u32)) & y == x & ((x - 1) as u32)),
        (x != 0) && (x & y == x) ==> ((x ^ (x & ((x - 1) as u32))) & y == x ^ (x & ((x - 1) as u32))),
        (x != 0) && (x & y == x) ==> ((x ^ (x & ((x - 1) as u32))) | (x & ((x - 1) as u32)) == x),
        (x != 0) && (x & y == x) ==> (x & ((x - 1) as u32) <= x),
        (m != 0) && (m & (y & x) == m) ==> (x & m != 0),
        (x & y) & y == x & y,
        (x != 0) && (c < 32) && (x ^ (x & ((x - 1) as u32)) == 1u32 << c) && (m < 27) ==> (in_mask(
            x & ((x - 1) as u32),
            m,
        ) <==> in_mask(x, m) && m != c),
        (c < 27) ==> (in_mask(!x, c) <==> !in_mask(x, c)),
        (c < 27) ==> ((0o777_777_777u32 & !x) <= 0o777_777_777),
        (x != 0) && (x <= 0o777_777_777) && (m == x ^ (x & ((x - 1) as u32))) && (c < 32) && ((m >> c) & 1 == 1) ==> (m == 1u32 << c),
        (x != 0) && (x <= 0o777_777_777) && (m == x ^ (x & ((x - 1) as u32))) && (c < 32) && ((m >> c) & 1 == 1) ==> (c < 27),
        (x != 0) && (x <= 0o777_777_777) && (m == x ^ (x & ((x - 1) as u32))) && (c < 32) && ((m >> c) & 1 == 1) ==> (in_mask(x, c)),
        (x != 0) && (x <= 0o777_777_777) && (m == x ^ (x & ((x - 1) as u32))) && (c < 32) && ((m >> c) & 1 == 1) ==> (m != 0),
        (x != 0) && (x <= 0o777_777_777) && (m == x ^ (x & ((x - 1) as u32))) && (c < 32) && ((m >> c) & 1 == 1) ==> (m <= 0o777_777_777),
        (x != 0) && (x <= 0o777_777_777) && (m == x ^ (x & ((x - 1) as u32))) && (c < 32) && ((m >> c) & 1 == 1) ==> (m & ((m - 1) as u32) == 0),
        (x != 0) && (x <= 0o777_777_777) && (m == x ^ (x & ((x - 1) as u32))) && (c < 32) && ((m >> c) & 1 == 1) ==> (x & m != 0),
{
}

} // verus!
