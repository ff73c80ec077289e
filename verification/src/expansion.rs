//! Adding clues to a grid so that the cells with a clue keep a symmetry.

use vstd::prelude::*;
use crate::bitmask::Bitmask;
use crate::bits::{
    bit_indices, has_bit, high_index, lemma_bit_indices, lemma_high_index, lemma_low_index, lemma_low_index_unique,
    low_index, popcount,
};
use crate::dfs_with_progress::{DepthFirstSearcherWithProgress, DepthFirstTraversable, lemma_subtree_all, subtree};
use crate::cell_list::{ListedCellSpec, parse_cells, read_cells};
use crate::generate::digits_of_mask;
use crate::pipeline::{RegionMaskedSudoku, has_digit, lemma_digit_bound, lemma_zeros_update, zeros};
use crate::sudoku::is_valid_grid;
use crate::symmetry::lemma_image;
use crate::symmetry::DihedralSubgroup;

verus! {

/// A way to make more grids from a grid.
pub enum Expansion {
    /// Adds `n` clues so that the cells with a clue are carried into one
    /// another by `symmetry`, at none of the `excluded_cells`, each of
    /// which is a row and a column counted from 0.
    PlusN { n: usize, symmetry: DihedralSubgroup, excluded_cells: Vec<(usize, usize)> },
}

/// A step of the search for the clues to add.
#[derive(Clone, Copy, Debug, PartialEq, Eq)]
pub enum PlusNSearchStep {
    /// Takes up a cell whose orbit holds no clue yet: the other cells of the
    /// orbit are then required.
    StartOrbit(usize),
    /// Takes up the next of the required cells.
    AddCell(usize),
    /// Places a digit at the cell taken up last.
    PlaceDigit(usize, u8),
}

/// Whether cell `c` is in the mask.
pub open spec fn in_cells(mask: u128, c: int) -> bool {
    0 <= c < 128 && mask & (1u128 << (c as u128)) != 0
}

/// How a cell goes into a mask of cells and out of it.
pub proof fn lemma_cells(m: u128, c: u128, e: u128)
    by (bit_vector)
    requires
        c < 128,
        e < 128,
    ensures
        (m | (1u128 << c)) & (1u128 << e) != 0 <==> m & (1u128 << e) != 0 || e == c,
        (m & !(1u128 << c)) & (1u128 << e) != 0 <==> m & (1u128 << e) != 0 && e != c,
        m & (1u128 << c) != 0 ==> (m & !(1u128 << c)) | (1u128 << c) == m,
        m & (1u128 << c) == 0 ==> (m | (1u128 << c)) & !(1u128 << c) == m,
        m & (1u128 << c) != 0 <==> (m >> c) & 1 == 1,
        0u128 & (1u128 << c) == 0,
        m & (1u128 << c) != 0 ==> m != 0,
{
}

/// Whether cell `c` is the first cell of the mask.
pub open spec fn leads(mask: u128, c: int) -> bool {
    in_cells(mask, c) && forall|b: int| 0 <= b < c ==> !in_cells(mask, b)
}

/// Whether cell `c` can start an orbit: it is the first cell of its own
/// orbit, and it lies in the orbit of no excluded cell and of no cell of the
/// grid that holds a clue.
pub open spec fn may_start(orbits: Seq<u128>, grid: Seq<u8>, excluded: Seq<(usize, usize)>, c: int) -> bool {
    &&& leads(orbits[c], c)
    &&& forall|j: int| 0 <= j < excluded.len() ==> !in_cells(orbits[9 * (#[trigger] excluded[j]).0 + excluded[j].1], c)
    &&& forall|i: int| 0 <= i < 81 && #[trigger] grid[i] != 0 ==> !in_cells(orbits[i], c)
}

/// The lowest set bit of a mask is its first cell.
proof fn lemma_leads(mask: u128, c: int)
    requires
        0 <= c < 128,
        in_cells(mask, c),
    ensures
        leads(mask, c) <==> low_index(mask) == c,
{
    lemma_cells(mask, c as u128, c as u128);
    lemma_low_index(mask);
    assert forall|b: int| 0 <= b < 128 implies (in_cells(mask, b) <==> has_bit(mask, b as nat)) by {
        lemma_cells(mask, b as u128, b as u128);
    }
    if leads(mask, c) {
        assert forall|b: nat| b < c implies !has_bit(mask, b) by {
            assert(!in_cells(mask, b as int));
        }
        lemma_low_index_unique(mask, c as nat);
    }
    if low_index(mask) == c {
        assert forall|b: int| 0 <= b < c implies !in_cells(mask, b) by {
            assert(!has_bit(mask, b as nat));
        }
    }
}

/// Whether `after` is the grid `before` with `n` clues added so that the
/// cells that hold a clue are carried into one another by the symmetries of
/// the group: no clue of `before` is changed, the grid is valid, and where
/// a cell holds a clue each cell of its orbit holds one.
pub open spec fn expanded(before: Seq<u8>, after: Seq<u8>, n: int, symmetry: DihedralSubgroup) -> bool {
    &&& is_valid_grid(after)
    &&& forall|i: int| 0 <= i < 81 && before[i] != 0 ==> #[trigger] after[i] == before[i]
    &&& zeros(before, 81) - zeros(after, 81) == n
    &&& forall|c: int, b: int| 0 <= c < 81 && after[c] != 0 && #[trigger] symmetry.in_orbit(c, b) ==> after[b] != 0
}

/// The state of the search for the clues to add to a grid.
pub struct PlusNSearchState {
    sudoku: RegionMaskedSudoku,
    orbits: Vec<u128>,
    allowed_cells: u128,
    placed_cells: u128,
    required_cells: u128,
    pending_placement: Option<usize>,
    placements_remaining: usize,
}

impl PlusNSearchState {
    /// The grid as it is filled so far.
    pub closed spec fn grid(&self) -> RegionMaskedSudoku {
        self.sudoku
    }

    /// For each cell the mask of the cells of its orbit.
    pub closed spec fn orbit_masks(&self) -> Seq<u128> {
        self.orbits@
    }

    /// The cells that can start an orbit.
    pub closed spec fn allowed(&self) -> u128 {
        self.allowed_cells
    }

    /// The cells that have started an orbit.
    pub closed spec fn placed(&self) -> u128 {
        self.placed_cells
    }

    /// The cells of the orbit that was started last that are still without
    /// a clue.
    pub closed spec fn required(&self) -> u128 {
        self.required_cells
    }

    /// The cell that was taken up and is still without its digit.
    pub closed spec fn pending(&self) -> Option<usize> {
        self.pending_placement
    }

    /// How many clues are still to add.
    pub closed spec fn remaining(&self) -> nat {
        self.placements_remaining as nat
    }

    /// Whether every cell of the orbit of cell `c` is empty.
    pub open spec fn orbit_empty(&self, c: int) -> bool {
        forall|e: int| 0 <= e < 81 && in_cells(self.orbit_masks()[c], e) ==> #[trigger] self.grid().grid()[e] == 0
    }

    /// The first cell that can start an orbit: the cell after the highest
    /// that has started one.
    pub open spec fn first_start(&self) -> int {
        if self.placed() == 0 {
            0
        } else {
            (high_index(self.placed()) + 1) as int
        }
    }

    /// The steps that start an orbit at a cell from `from` on: at each
    /// allowed cell whose orbit is empty, in the order of the cells.
    pub open spec fn start_steps(&self, from: int) -> Seq<PlusNSearchStep>
        decreases 81 - from,
    {
        if from < 0 || from >= 81 {
            Seq::empty()
        } else if in_cells(self.allowed(), from) && self.orbit_empty(from) {
            seq![PlusNSearchStep::StartOrbit(from as usize)] + self.start_steps(from + 1)
        } else {
            self.start_steps(from + 1)
        }
    }

    /// The steps that place each digit that can go to cell `idx`, lowest
    /// first.
    pub open spec fn digit_steps(idx: usize, mask: u16) -> Seq<PlusNSearchStep> {
        Seq::new(
            bit_indices(mask as u128).len(),
            |k: int| PlusNSearchStep::PlaceDigit(idx, bit_indices(mask as u128)[k] as u8),
        )
    }

    /// The state after a step.
    pub closed spec fn with_step(&self, step: PlusNSearchStep) -> Self {
        match step {
            PlusNSearchStep::StartOrbit(cell) => PlusNSearchState {
                sudoku: self.sudoku,
                orbits: self.orbits,
                allowed_cells: self.allowed_cells,
                placed_cells: self.placed_cells | (1u128 << cell),
                required_cells: self.orbits@[cell as int] & !(1u128 << cell),
                pending_placement: Some(cell),
                placements_remaining: (self.placements_remaining - 1) as usize,
            },
            PlusNSearchStep::AddCell(cell) => PlusNSearchState {
                sudoku: self.sudoku,
                orbits: self.orbits,
                allowed_cells: self.allowed_cells,
                placed_cells: self.placed_cells,
                required_cells: self.required_cells & !(1u128 << cell),
                pending_placement: Some(cell),
                placements_remaining: (self.placements_remaining - 1) as usize,
            },
            PlusNSearchStep::PlaceDigit(cell, d) => PlusNSearchState {
                sudoku: self.sudoku.with_digit(cell as int, d),
                orbits: self.orbits,
                allowed_cells: self.allowed_cells,
                placed_cells: self.placed_cells,
                required_cells: self.required_cells,
                pending_placement: None,
                placements_remaining: self.placements_remaining,
            },
        }
    }

    /// The grid is in order; there is a mask for the orbit of each cell;
    /// the required cells are empty cells of the grid; and so is the cell
    /// that was taken up, which is not required any more.
    pub closed spec fn inv(&self) -> bool {
        &&& self.sudoku.wf()
        &&& self.orbits@.len() == 81
        &&& forall|c: int| 0 <= c < 81 ==> #[trigger] self.orbits@[c] < 0x2_0000_0000_0000_0000_0000u128
        &&& forall|c: int| 0 <= c < 81 ==> in_cells(#[trigger] self.orbits@[c], c)
        &&& self.required_cells < 0x2_0000_0000_0000_0000_0000u128
        &&& forall|c: int| 0 <= c < 81 && in_cells(self.required_cells, c) ==> #[trigger] self.sudoku.grid()[c] == 0
        &&& match self.pending_placement {
            None => true,
            Some(c) => c < 81 && self.sudoku.grid()[c as int] == 0 && !in_cells(self.required_cells, c as int),
        }
    }

    /// Whether the search goes no deeper: the orbit cannot be completed with
    /// the clues that are left, or no clue is left and none is under way.
    pub open spec fn is_pruned(&self) -> bool {
        popcount(self.required()) > self.remaining() || (self.pending() is None && self.remaining() == 0)
    }
}

impl PlusNSearchState {
    /// The grid of a state that is in order is in order.
    pub proof fn lemma_grid_wf(&self)
        requires
            self.inv(),
        ensures
            self.grid().wf(),
    {
    }

    /// Whether every cell of the orbit of `cell` is empty.
    fn is_orbit_empty(&self, cell: usize) -> (r: bool)
        requires
            self.inv(),
            cell < 81,
        ensures
            r == self.orbit_empty(cell as int),
    {
        let orbit = self.orbits[cell];
        let mut e: usize = 0;
        while e < 81
            invariant
                e <= 81,
                cell < 81,
                self.orbits@.len() == 81,
                orbit == self.orbits@[cell as int],
                forall|f: int| 0 <= f < e && in_cells(orbit, f) ==> #[trigger] self.grid().grid()[f] == 0,
            decreases 81 - e,
        {
            if orbit & (1u128 << e) != 0 && !self.sudoku.is_empty(e) {
                proof {
                    assert(in_cells(self.orbit_masks()[cell as int], e as int));
                    assert(self.grid().grid()[e as int] != 0);
                }
                return false;
            }
            e += 1;
        }
        true
    }

    /// The steps that start an orbit at a cell from `from` on.
    fn starts_from(&self, from: usize) -> (r: Vec<PlusNSearchStep>)
        requires
            self.inv(),
        ensures
            r@ == self.start_steps(from as int),
    {
        let mut steps: Vec<PlusNSearchStep> = Vec::new();
        let mut cell = from;
        while cell < 81
            invariant
                from <= cell,
                self.inv(),
                steps@ + self.start_steps(cell as int) == self.start_steps(from as int),
            decreases 81 - cell,
        {
            let ghost before = steps@;
            if self.allowed_cells & (1u128 << cell) != 0 && self.is_orbit_empty(cell) {
                steps.push(PlusNSearchStep::StartOrbit(cell));
                proof {
                    assert((before + seq![PlusNSearchStep::StartOrbit(cell)]) + self.start_steps(cell + 1) =~= before + (
                    seq![PlusNSearchStep::StartOrbit(cell)] + self.start_steps(cell + 1)));
                }
            }
            cell += 1;
        }
        proof {
            assert(steps@ + Seq::<PlusNSearchStep>::empty() =~= steps@);
        }
        steps
    }

    /// The steps that place each digit that can go to cell `idx`.
    fn digits_of(idx: usize, mask: u16) -> (r: Vec<PlusNSearchStep>)
        ensures
            r@ == Self::digit_steps(idx, mask),
    {
        let digits = digits_of_mask(mask);
        let mut steps: Vec<PlusNSearchStep> = Vec::new();
        let mut k: usize = 0;
        while k < digits.len()
            invariant
                k <= digits@.len(),
                steps@.len() == k,
                forall|j: int| 0 <= j < k ==> #[trigger] steps@[j] == PlusNSearchStep::PlaceDigit(idx, digits@[j]),
            decreases digits@.len() - k,
        {
            steps.push(PlusNSearchStep::PlaceDigit(idx, digits[k]));
            k += 1;
        }
        proof {
            assert(steps@ =~= Self::digit_steps(idx, mask));
        }
        steps
    }

    /// A step that starts an orbit is at an allowed cell from `from` on
    /// whose orbit is empty.
    proof fn lemma_start_steps(&self, from: int, step: PlusNSearchStep)
        requires
            0 <= from,
            self.start_steps(from).contains(step),
        ensures
            step matches PlusNSearchStep::StartOrbit(cell) && from <= cell < 81 && self.orbit_empty(cell as int),
        decreases 81 - from,
    {
        if from < 81 {
            let rest = self.start_steps(from + 1);
            let k = choose|k: int| 0 <= k < self.start_steps(from).len() && self.start_steps(from)[k] == step;
            if in_cells(self.allowed(), from) && self.orbit_empty(from) {
                if k > 0 {
                    assert(rest[k - 1] == step);
                    assert(rest.contains(step));
                    self.lemma_start_steps(from + 1, step);
                }
            } else {
                assert(rest.contains(step));
                self.lemma_start_steps(from + 1, step);
            }
        }
    }

    /// Whether cell `c` holds a clue or is the cell that was taken up.
    spec fn held(&self, c: int) -> bool {
        self.sudoku.grid()[c] != 0 || self.pending_placement == Some(c as usize)
    }

    /// Whether the state is one of the search that adds `n` clues to the
    /// grid `before` under the symmetries of the group: the clues that were
    /// added, those that are still to add and the cell that is taken up are
    /// `n` in all; and each cell of the orbit of a cell that is held holds
    /// a clue, or is required, or is the cell that is taken up.
    spec fn grown(&self, before: Seq<u8>, n: int, symmetry: DihedralSubgroup) -> bool {
        &&& self.inv()
        &&& forall|i: int, b: int|
            0 <= i < 81 && 0 <= b < 81 ==> (#[trigger] in_cells(self.orbits@[i], b) <==> symmetry.in_orbit(i, b))
        &&& forall|i: int| 0 <= i < 81 && before[i] != 0 ==> #[trigger] self.sudoku.grid()[i] == before[i]
        &&& zeros(before, 81) - zeros(self.sudoku.grid(), 81) + self.placements_remaining + (if self.pending_placement
            is Some {
            1int
        } else {
            0int
        }) == n
        &&& forall|c: int, b: int|
            0 <= c < 81 && self.held(c) && #[trigger] symmetry.in_orbit(c, b) ==> self.sudoku.grid()[b] != 0
                || in_cells(self.required_cells, b) || self.pending_placement == Some(b as usize)
        &&& forall|b: int|
            0 <= b < 81 && #[trigger] in_cells(self.required_cells, b) ==> exists|k: int|
                0 <= k < 81 && self.held(k) && #[trigger] symmetry.in_orbit(k, b)
    }

    /// A step leads from a state of the search to a state of the search.
    proof fn lemma_grown_step(&self, before: Seq<u8>, n: int, symmetry: DihedralSubgroup, i: int)
        requires
            self.grown(before, n, symmetry),
            !self.is_pruned(),
            0 <= i < self.steps().len(),
        ensures
            self.with_step(self.steps()[i]).grown(before, n, symmetry),
    {
        let step = self.steps()[i];
        let after = self.with_step(step);
        assert(self.steps().contains(step));
        self.lemma_step_facts(step);
        self.lemma_step(i);
        assert(after.inv());
        assert forall|c: int, b: int| 0 <= c < 81 && #[trigger] symmetry.in_orbit(c, b) implies 0 <= b < 81 by {
            let g = choose|g: int| 0 <= g < 8 && symmetry.has(g) && #[trigger] crate::symmetry::image_of(g, c) == b;
            lemma_image(g, c);
        }
        match step {
            PlusNSearchStep::StartOrbit(cell) => {
                lemma_cells(0, 0, 0);
                assert forall|b: int| 0 <= b < 128 implies !in_cells(self.required_cells, b) by {
                    lemma_cells(0, b as u128, b as u128);
                }
                assert forall|b: int| 0 <= b < 81 implies (in_cells(after.required_cells, b) <==> in_cells(
                    self.orbits@[cell as int],
                    b,
                ) && b != cell) by {
                    lemma_cells(self.orbits@[cell as int], cell as u128, b as u128);
                }
                assert forall|c: int, b: int|
                    0 <= c < 81 && after.held(c) && #[trigger] symmetry.in_orbit(c, b) implies after.sudoku.grid()[b] != 0
                    || in_cells(after.required_cells, b) || after.pending_placement == Some(b as usize) by {
                    if c == cell {
                        assert(in_cells(self.orbits@[cell as int], b));
                    } else {
                        assert(self.held(c));
                    }
                }
                assert forall|b: int| 0 <= b < 81 && #[trigger] in_cells(after.required_cells, b) implies exists|k: int|
                    0 <= k < 81 && after.held(k) && #[trigger] symmetry.in_orbit(k, b) by {
                    assert(in_cells(self.orbits@[cell as int], b));
                    assert(after.held(cell as int) && symmetry.in_orbit(cell as int, b));
                }
            },
            PlusNSearchStep::AddCell(cell) => {
                assert forall|b: int| 0 <= b < 81 implies (in_cells(after.required_cells, b) <==> in_cells(
                    self.required_cells,
                    b,
                ) && b != cell) by {
                    lemma_cells(self.required_cells, cell as u128, b as u128);
                }
                let k0 = choose|k: int| 0 <= k < 81 && self.held(k) && #[trigger] symmetry.in_orbit(k, cell as int);
                assert forall|c: int, b: int|
                    0 <= c < 81 && after.held(c) && #[trigger] symmetry.in_orbit(c, b) implies after.sudoku.grid()[b] != 0
                    || in_cells(after.required_cells, b) || after.pending_placement == Some(b as usize) by {
                    if c == cell && self.sudoku.grid()[c] == 0 {
                        symmetry.lemma_orbit_through(k0, cell as int, b);
                        assert(self.held(k0) && symmetry.in_orbit(k0, b));
                    } else {
                        assert(self.held(c));
                    }
                }
                assert forall|b: int| 0 <= b < 81 && #[trigger] in_cells(after.required_cells, b) implies exists|k: int|
                    0 <= k < 81 && after.held(k) && #[trigger] symmetry.in_orbit(k, b) by {
                    let k = choose|k: int| 0 <= k < 81 && self.held(k) && #[trigger] symmetry.in_orbit(k, b);
                    assert(after.held(k) && symmetry.in_orbit(k, b));
                }
            },
            PlusNSearchStep::PlaceDigit(cell, d) => {
                self.sudoku.lemma_with_digit(cell as int, d);
                lemma_zeros_update(self.sudoku.grid(), cell as int, d, 81);
                assert forall|c: int| 0 <= c < 81 implies (after.held(c) <==> self.held(c)) by {}
                assert forall|c: int, b: int|
                    0 <= c < 81 && after.held(c) && #[trigger] symmetry.in_orbit(c, b) implies after.sudoku.grid()[b] != 0
                    || in_cells(after.required_cells, b) || after.pending_placement == Some(b as usize) by {
                    assert(self.held(c));
                }
                assert forall|b: int| 0 <= b < 81 && #[trigger] in_cells(after.required_cells, b) implies exists|k: int|
                    0 <= k < 81 && after.held(k) && #[trigger] symmetry.in_orbit(k, b) by {
                    let k = choose|k: int| 0 <= k < 81 && self.held(k) && #[trigger] symmetry.in_orbit(k, b);
                    assert(after.held(k) && symmetry.in_orbit(k, b));
                }
            },
        }
    }

    /// What the search emits from a start state for a grid is the grid
    /// with `n` clues added so that the cells that hold a clue are carried
    /// into one another by the symmetries of the group: see [`expanded`].
    pub proof fn lemma_expanded(&self, sudoku: RegionMaskedSudoku, n: usize, symmetry: DihedralSubgroup, fuel: nat)
        requires
            self.wf(),
            self.grid() == sudoku,
            self.remaining() == n,
            self.pending() is None,
            forall|i: int, b: int|
                0 <= i < 81 && 0 <= b < 81 ==> (#[trigger] in_cells(self.orbit_masks()[i], b) <==> symmetry.in_orbit(i, b)),
            forall|c: int|
                0 <= c < 81 ==> (#[trigger] in_cells(self.required(), c) <==> sudoku.grid()[c] == 0 && exists|k: int|
                    0 <= k < 81 && sudoku.grid()[k] != 0 && in_cells(#[trigger] self.orbit_masks()[k], c)),
        ensures
            forall|k: int|
                0 <= k < subtree(*self, fuel).len() ==> expanded(
                    sudoku.grid(),
                    (#[trigger] subtree(*self, fuel)[k]).grid(),
                    n as int,
                    symmetry,
                ),
    {
        let before = sudoku.grid();
        let inv = |s: PlusNSearchState| s.grown(before, n as int, symmetry);
        let good = |o: RegionMaskedSudoku| expanded(before, o.grid(), n as int, symmetry);
        assert forall|c: int, b: int| 0 <= c < 81 && #[trigger] symmetry.in_orbit(c, b) implies 0 <= b < 81 by {
            let g = choose|g: int| 0 <= g < 8 && symmetry.has(g) && #[trigger] crate::symmetry::image_of(g, c) == b;
            lemma_image(g, c);
        }
        assert(inv(*self)) by {
            assert(self.inv());
            assert(self.sudoku.grid() == before);
            assert(self.placements_remaining == n && self.pending_placement is None);
            assert(zeros(before, 81) - zeros(self.sudoku.grid(), 81) + self.placements_remaining + 0 == n);
            assert forall|i: int, b: int| 0 <= i < 81 && 0 <= b < 81 implies (#[trigger] in_cells(self.orbits@[i], b)
                <==> symmetry.in_orbit(i, b)) by {
                assert(in_cells(self.orbit_masks()[i], b) <==> symmetry.in_orbit(i, b));
            }
            assert forall|c: int, b: int|
                0 <= c < 81 && self.held(c) && #[trigger] symmetry.in_orbit(c, b) implies self.sudoku.grid()[b] != 0
                || in_cells(self.required_cells, b) || self.pending_placement == Some(b as usize) by {
                if self.sudoku.grid()[b] == 0 {
                    assert(self.sudoku.grid()[c] != 0);
                    assert(in_cells(self.orbit_masks()[c], b));
                    assert(sudoku.grid()[b] == 0 && sudoku.grid()[c] != 0 && in_cells(self.orbit_masks()[c], b));
                    assert(in_cells(self.required(), b));
                }
            }
            assert forall|b: int| 0 <= b < 81 && #[trigger] in_cells(self.required_cells, b) implies exists|k: int|
                0 <= k < 81 && self.held(k) && #[trigger] symmetry.in_orbit(k, b) by {
                assert(in_cells(self.required(), b));
                let k = choose|k: int|
                    0 <= k < 81 && sudoku.grid()[k] != 0 && in_cells(#[trigger] self.orbit_masks()[k], b);
                assert(self.held(k) && symmetry.in_orbit(k, b));
            }
        }
        assert forall|s: PlusNSearchState, i: int| inv(s) && !s.pruned() && 0 <= i < s.steps().len() implies inv(
            #[trigger] s.after(s.steps()[i]),
        ) by {
            s.lemma_grown_step(before, n as int, symmetry, i);
        }
        assert forall|s: PlusNSearchState| #[trigger] inv(s) && s.emits() is Some implies good(s.emits().unwrap()) by {
            assert forall|b: int| 0 <= b < 128 implies !in_cells(s.required_cells, b) by {
                lemma_cells(0, b as u128, b as u128);
            }
            assert forall|c: int, b: int|
                0 <= c < 81 && s.sudoku.grid()[c] != 0 && #[trigger] symmetry.in_orbit(c, b) implies s.sudoku.grid()[b]
                != 0 by {
                assert(s.held(c));
                let g = choose|g: int| 0 <= g < 8 && symmetry.has(g) && #[trigger] crate::symmetry::image_of(g, c) == b;
                lemma_image(g, c);
            }
        }
        lemma_subtree_all(*self, fuel, inv, good);
    }

    /// A step changes neither the orbits nor the cells that can start one.
    pub proof fn lemma_step_keeps(&self, step: PlusNSearchStep)
        ensures
            self.with_step(step).orbit_masks() == self.orbit_masks(),
            self.with_step(step).allowed() == self.allowed(),
    {
    }

    /// What holds of a step that is one of the steps of the state.
    proof fn lemma_step_facts(&self, step: PlusNSearchStep)
        requires
            self.inv(),
            !self.is_pruned(),
            self.steps().contains(step),
        ensures
            match step {
                PlusNSearchStep::StartOrbit(cell) => cell < 81 && self.pending() is None && self.required() == 0
                    && self.remaining() >= 1 && self.orbit_empty(cell as int) && !in_cells(self.placed(), cell as int),
                PlusNSearchStep::AddCell(cell) => cell < 81 && self.pending() is None && in_cells(
                    self.required(),
                    cell as int,
                ) && self.remaining() >= 1,
                PlusNSearchStep::PlaceDigit(cell, d) => self.pending() == Some(cell) && cell < 81 && 1 <= d <= 9
                    && has_digit(self.grid().candidate_mask(cell as int), d as int) && self.grid().grid()[cell as int]
                    == 0,
            },
    {
        let k = choose|k: int| 0 <= k < self.steps().len() && self.steps()[k] == step;
        match self.pending() {
            Some(idx) => {
                let mask = self.grid().candidate_mask(idx as int);
                lemma_bit_indices(mask as u128);
                let d = bit_indices(mask as u128)[k];
                assert(has_bit(mask as u128, d));
                lemma_digit_bound(mask, d as u16);
                self.grid().lemma_candidates(idx as int, d as int);
            },
            None => {
                if self.required() != 0 {
                    lemma_low_index(self.required());
                    let c = low_index(self.required());
                    lemma_cells(self.required(), c as u128, 0);
                    lemma_below(self.required(), c as u128);
                } else {
                    self.lemma_start_steps(self.first_start(), step);
                    let cell = step->StartOrbit_0;
                    if self.placed() != 0 {
                        lemma_high_index(self.placed());
                        lemma_cells(self.placed(), cell as u128, 0);
                        assert(!has_bit(self.placed(), cell as nat));
                    } else {
                        lemma_cells(0, cell as u128, 0);
                    }
                    assert(!in_cells(self.placed(), cell as int));
                    assert(self.remaining() >= 1);
                }
            },
        }
    }
}

impl DepthFirstTraversable for PlusNSearchState {
    type Step = PlusNSearchStep;

    type Output = RegionMaskedSudoku;

    open spec fn wf(&self) -> bool {
        self.inv()
    }

    open spec fn steps(&self) -> Seq<PlusNSearchStep> {
        match self.pending() {
            Some(idx) => Self::digit_steps(idx, self.grid().candidate_mask(idx as int)),
            None => if self.required() != 0 {
                seq![PlusNSearchStep::AddCell(low_index(self.required()) as usize)]
            } else {
                self.start_steps(self.first_start())
            },
        }
    }

    open spec fn after(&self, step: PlusNSearchStep) -> Self {
        self.with_step(step)
    }

    open spec fn pruned(&self) -> bool {
        self.is_pruned()
    }

    open spec fn emits(&self) -> Option<RegionMaskedSudoku> {
        if self.required() == 0 && self.pending() is None && self.remaining() == 0 {
            Some(self.grid())
        } else {
            None
        }
    }

    open spec fn height(&self) -> nat {
        2 * self.remaining() + (if self.pending() is Some { 1nat } else { 0nat })
    }

    proof fn lemma_step(&self, i: int) {
        let step = self.steps()[i];
        assert(self.steps().contains(step));
        self.lemma_step_facts(step);
        let after = self.with_step(step);
        match step {
            PlusNSearchStep::StartOrbit(cell) => {
                let orbit = self.orbits@[cell as int];
                lemma_within_cap(orbit, 1u128 << cell);
                assert(self.orbit_empty(cell as int));
                assert(self.orbit_masks()[cell as int] == orbit);
                assert forall|c: int| 0 <= c < 81 && in_cells(after.required_cells, c) implies #[trigger] after.sudoku.grid()[c]
                    == 0 by {
                    lemma_cells(orbit, cell as u128, c as u128);
                    assert(in_cells(orbit, c));
                    assert(self.grid().grid()[c] == 0);
                }
                lemma_cells(orbit, cell as u128, cell as u128);
                assert(in_cells(orbit, cell as int));
                assert(self.grid().grid()[cell as int] == 0);
            },
            PlusNSearchStep::AddCell(cell) => {
                lemma_within_cap(self.required_cells, 1u128 << cell);
                assert forall|c: int| 0 <= c < 81 && in_cells(after.required_cells, c) implies #[trigger] after.sudoku.grid()[c]
                    == 0 by {
                    lemma_cells(self.required_cells, cell as u128, c as u128);
                }
                lemma_cells(self.required_cells, cell as u128, cell as u128);
            },
            PlusNSearchStep::PlaceDigit(cell, d) => {
                self.sudoku.lemma_with_digit(cell as int, d);
            },
        }
    }

    fn next_steps(&mut self) -> (r: Vec<PlusNSearchStep>) {
        match self.pending_placement {
            Some(idx) => {
                let mask = self.sudoku.candidates(idx).into_inner();
                Self::digits_of(idx, mask)
            },
            None => {
                if self.required_cells != 0 {
                    let cell = self.required_cells.trailing_zeros() as usize;
                    let mut steps: Vec<PlusNSearchStep> = Vec::new();
                    steps.push(PlusNSearchStep::AddCell(cell));
                    proof {
                        assert(steps@ =~= seq![PlusNSearchStep::AddCell(low_index(self.required_cells) as usize)]);
                    }
                    steps
                } else {
                    let start = match Bitmask::<u128>::from(self.placed_cells).max() {
                        Some(top) => top + 1,
                        None => 0,
                    };
                    proof {
                        if self.placed_cells != 0 {
                            lemma_high_index(self.placed_cells);
                        }
                    }
                    self.starts_from(start)
                }
            },
        }
    }

    fn apply_step(&mut self, step: &PlusNSearchStep) {
        proof {
            self.lemma_step_facts(*step);
        }
        match *step {
            PlusNSearchStep::StartOrbit(cell) => {
                self.required_cells = self.orbits[cell] & !(1u128 << cell);
                self.placed_cells = self.placed_cells | (1u128 << cell);
                self.pending_placement = Some(cell);
                self.placements_remaining -= 1;
            },
            PlusNSearchStep::AddCell(cell) => {
                self.required_cells = self.required_cells & !(1u128 << cell);
                self.pending_placement = Some(cell);
                self.placements_remaining -= 1;
            },
            PlusNSearchStep::PlaceDigit(cell, d) => {
                self.sudoku.place(cell, d);
                self.pending_placement = None;
            },
        }
    }

    fn revert_step(&mut self, step: &PlusNSearchStep, before: Ghost<Self>) {
        proof {
            before@.lemma_step_facts(*step);
        }
        match *step {
            PlusNSearchStep::PlaceDigit(cell, d) => {
                proof {
                    before@.sudoku.lemma_with_digit(cell as int, d);
                }
                self.sudoku.unplace(cell, d);
                self.pending_placement = Some(cell);
                proof {
                    before@.sudoku.lemma_unplaced(&self.sudoku, cell as int, d);
                }
            },
            PlusNSearchStep::StartOrbit(cell) => {
                proof {
                    lemma_cells(before@.placed_cells, cell as u128, 0);
                }
                self.placed_cells = self.placed_cells & !(1u128 << cell);
                self.required_cells = 0;
                self.pending_placement = None;
                self.placements_remaining += 1;
            },
            PlusNSearchStep::AddCell(cell) => {
                proof {
                    lemma_cells(before@.required_cells, cell as u128, 0);
                }
                self.required_cells = self.required_cells | (1u128 << cell);
                self.pending_placement = None;
                self.placements_remaining += 1;
            },
        }
    }

    fn should_prune(&mut self) -> (r: bool) {
        proof {
            crate::bits_std::lemma_popcount_bound(self.required_cells);
        }
        self.required_cells.count_ones() as usize > self.placements_remaining || (self.pending_placement.is_none()
            && self.placements_remaining == 0)
    }

    fn output(&mut self) -> (r: Option<RegionMaskedSudoku>) {
        if self.required_cells == 0 && self.pending_placement.is_none() && self.placements_remaining == 0 {
            Some(self.sudoku)
        } else {
            None
        }
    }
}

/// A mask of cells of the board: what holds of its lowest cell, and of
/// what is left of it.
proof fn lemma_below(m: u128, c: u128)
    by (bit_vector)
    requires
        m < 0x2_0000_0000_0000_0000_0000u128,
    ensures
        c < 128 && (m >> c) & 1 == 1 ==> c < 81,
{
}

/// What is left of a mask of cells of the board is one, and so is what two
/// of them make together.
proof fn lemma_within_cap(m: u128, x: u128)
    by (bit_vector)
    ensures
        m < 0x2_0000_0000_0000_0000_0000u128 ==> (m & !x) < 0x2_0000_0000_0000_0000_0000u128 && (m & x)
            < 0x2_0000_0000_0000_0000_0000u128,
        m < 0x2_0000_0000_0000_0000_0000u128 && x < 0x2_0000_0000_0000_0000_0000u128 ==> (m | x)
            < 0x2_0000_0000_0000_0000_0000u128,
        x < 81 ==> (1u128 << x) < 0x2_0000_0000_0000_0000_0000u128,
        0u128 < 0x2_0000_0000_0000_0000_0000u128,
        x < 128 ==> ((m & !x) & (1u128 << 0) != 0 ==> m & (1u128 << 0) != 0),
{
}

/// How cells go through the bitwise operations.
pub proof fn lemma_cell_ops(a: u128, b: u128, e: u128)
    by (bit_vector)
    requires
        e < 128,
    ensures
        (a | b) & (1u128 << e) != 0 <==> a & (1u128 << e) != 0 || b & (1u128 << e) != 0,
        (a & !b) & (1u128 << e) != 0 <==> a & (1u128 << e) != 0 && b & (1u128 << e) == 0,
        (a & b) & (1u128 << e) != 0 <==> a & (1u128 << e) != 0 && b & (1u128 << e) != 0,
{
}

/// Whether no cell of the list comes with digits.
pub open spec fn no_digits(cells: Seq<ListedCellSpec>) -> bool {
    forall|i: int| 0 <= i < cells.len() ==> (#[trigger] cells[i]).digits.len() == 0
}

/// Whether the rows and columns are those of the cells of the list, all of
/// them on the board.
pub open spec fn same_cells(excluded: Seq<(usize, usize)>, cells: Seq<ListedCellSpec>) -> bool {
    &&& excluded.len() == cells.len()
    &&& forall|i: int|
        0 <= i < cells.len() ==> (#[trigger] excluded[i]) == (cells[i].row as usize, cells[i].col as usize)
            && excluded[i].0 < 9 && excluded[i].1 < 9
}

/// The mask of the cells of a list.
fn mask_of_cells(cells: &Vec<usize>) -> (r: u128)
    requires
        forall|k: int| 0 <= k < cells@.len() ==> #[trigger] cells@[k] < 81,
    ensures
        r < 0x2_0000_0000_0000_0000_0000u128,
        forall|e: int| 0 <= e < 128 ==> (in_cells(r, e) <==> exists|k: int| 0 <= k < cells@.len() && #[trigger] cells@[k] == e),
{
    let mut mask: u128 = 0;
    let mut k: usize = 0;
    proof {
        lemma_within_cap(0, 0);
        assert forall|e: int| 0 <= e < 128 implies !in_cells(0u128, e) by {
            lemma_cells(0, e as u128, e as u128);
        }
    }
    while k < cells.len()
        invariant
            k <= cells@.len(),
            forall|j: int| 0 <= j < cells@.len() ==> #[trigger] cells@[j] < 81,
            mask < 0x2_0000_0000_0000_0000_0000u128,
            forall|e: int| 0 <= e < 128 ==> (in_cells(mask, e) <==> exists|j: int| 0 <= j < k && #[trigger] cells@[j] == e),
        decreases cells@.len() - k,
    {
        let ghost before = mask;
        let cell = cells[k];
        mask = mask | (1u128 << (cell as u128));
        proof {
            lemma_within_cap(before, cell as u128);
            lemma_within_cap(before, 1u128 << (cell as u128));
            assert forall|e: int| 0 <= e < 128 implies (in_cells(mask, e) <==> exists|j: int|
                0 <= j < k + 1 && #[trigger] cells@[j] == e) by {
                lemma_cells(before, cell as u128, e as u128);
                if in_cells(before, e) {
                    let j = choose|j: int| 0 <= j < k && #[trigger] cells@[j] == e;
                    assert(0 <= j < k + 1 && cells@[j] == e);
                }
                if e == cell {
                    assert(cells@[k as int] == e);
                }
                if exists|j: int| 0 <= j < k + 1 && #[trigger] cells@[j] == e {
                    let j = choose|j: int| 0 <= j < k + 1 && #[trigger] cells@[j] == e;
                    if j < k {
                        assert(exists|j: int| 0 <= j < k && #[trigger] cells@[j] == e);
                    }
                }
            }
        }
        k += 1;
    }
    mask
}

impl PlusNSearchState {
    /// The state from which the search for `n` more clues starts: the cells
    /// that the symmetry carries a clue to and that are empty are required,
    /// and an orbit can start at its first cell unless it holds a clue or a
    /// cell that is excluded.
    pub fn for_sudoku_and_symmetry(
        n: usize,
        sudoku: RegionMaskedSudoku,
        symmetry: DihedralSubgroup,
        excluded_cells: &Vec<(usize, usize)>,
    ) -> (r: Self)
        requires
            sudoku.wf(),
            forall|k: int| 0 <= k < excluded_cells@.len() ==> (#[trigger] excluded_cells@[k]).0 < 9 && excluded_cells@[k].1 < 9,
        ensures
            r.wf(),
            r.grid() == sudoku,
            r.remaining() == n,
            r.pending() is None,
            r.placed() == 0,
            forall|i: int, b: int|
                0 <= i < 81 && 0 <= b < 81 ==> (#[trigger] in_cells(r.orbit_masks()[i], b) <==> symmetry.in_orbit(i, b)),
            forall|c: int|
                0 <= c < 81 ==> (#[trigger] in_cells(r.required(), c) <==> sudoku.grid()[c] == 0 && exists|k: int|
                    0 <= k < 81 && sudoku.grid()[k] != 0 && in_cells(#[trigger] r.orbit_masks()[k], c)),
            forall|c: int|
                0 <= c < 81 ==> (#[trigger] in_cells(r.allowed(), c) <==> may_start(
                    r.orbit_masks(),
                    sudoku.grid(),
                    excluded_cells@,
                    c,
                )),
    {
        let lists = symmetry.orbits();
        let mut orbits: Vec<u128> = Vec::new();
        let mut cell: usize = 0;
        while cell < 81
            invariant
                cell <= 81,
                lists@.len() == 81,
                orbits@.len() == cell,
                forall|i: int, k: int|
                    0 <= i < 81 && 0 <= k < lists@[i]@.len() ==> #[trigger] lists@[i]@[k] < 81 && symmetry.in_orbit(
                        i,
                        lists@[i]@[k] as int,
                    ),
                forall|i: int, b: int|
                    0 <= i < 81 && symmetry.in_orbit(i, b) ==> exists|k: int|
                        0 <= k < lists@[i]@.len() && #[trigger] lists@[i]@[k] == b,
                forall|i: int| 0 <= i < 81 ==> (#[trigger] lists@[i])@.len() >= 1 && lists@[i]@[0] == i,
                forall|i: int| 0 <= i < cell ==> #[trigger] orbits@[i] < 0x2_0000_0000_0000_0000_0000u128,
                forall|i: int| 0 <= i < cell ==> in_cells(#[trigger] orbits@[i], i),
                forall|i: int, b: int|
                    0 <= i < cell && 0 <= b < 81 ==> (#[trigger] in_cells(orbits@[i], b) <==> symmetry.in_orbit(i, b)),
            decreases 81 - cell,
        {
            let ghost list = lists@[cell as int]@;
            proof {
                assert forall|k: int| 0 <= k < list.len() implies #[trigger] list[k] < 81 by {
                    assert(lists@[cell as int]@[k] < 81);
                }
            }
            let mask = mask_of_cells(&lists[cell]);
            let ghost before = orbits@;
            orbits.push(mask);
            proof {
                assert(list[0] == cell);
                assert forall|b: int| 0 <= b < 81 implies (in_cells(mask, b) <==> symmetry.in_orbit(cell as int, b)) by {
                    if in_cells(mask, b) {
                        let k = choose|k: int| 0 <= k < list.len() && #[trigger] list[k] == b;
                        assert(symmetry.in_orbit(cell as int, lists@[cell as int]@[k] as int));
                    }
                    if symmetry.in_orbit(cell as int, b) {
                        let k = choose|k: int| 0 <= k < lists@[cell as int]@.len() && #[trigger] lists@[cell as int]@[k] == b;
                        assert(list[k] == b);
                    }
                }
                assert forall|i: int, b: int| 0 <= i < cell + 1 && 0 <= b < 81 implies (#[trigger] in_cells(
                    orbits@[i],
                    b,
                ) <==> symmetry.in_orbit(i, b)) by {
                    if i < cell {
                        assert(orbits@[i] == before[i]);
                    }
                }
                assert forall|i: int| 0 <= i < cell + 1 implies #[trigger] orbits@[i] < 0x2_0000_0000_0000_0000_0000u128
                    && in_cells(orbits@[i], i) by {
                    if i < cell {
                        assert(orbits@[i] == before[i]);
                    }
                }
            }
            cell += 1;
        }
        // the cells with a clue, and the cells that the symmetry carries them to
        let mut clue_cells: u128 = 0;
        let mut reached: u128 = 0;
        let mut idx: usize = 0;
        proof {
            lemma_within_cap(0, 0);
            assert forall|e: int| 0 <= e < 128 implies !in_cells(0u128, e) by {
                lemma_cells(0, e as u128, e as u128);
            }
        }
        while idx < 81
            invariant
                idx <= 81,
                orbits@.len() == 81,
                forall|i: int| 0 <= i < 81 ==> #[trigger] orbits@[i] < 0x2_0000_0000_0000_0000_0000u128,
                forall|i: int| 0 <= i < 81 ==> in_cells(#[trigger] orbits@[i], i),
                clue_cells < 0x2_0000_0000_0000_0000_0000u128,
                reached < 0x2_0000_0000_0000_0000_0000u128,
                forall|c: int| 0 <= c < 128 ==> (in_cells(clue_cells, c) <==> c < idx && sudoku.grid()[c] != 0),
                forall|c: int|
                    0 <= c < 128 ==> (in_cells(reached, c) <==> exists|k: int|
                        0 <= k < idx && sudoku.grid()[k] != 0 && in_cells(#[trigger] orbits@[k], c)),
            decreases 81 - idx,
        {
            if !sudoku.is_empty(idx) {
                let ghost (old_clues, old_reached) = (clue_cells, reached);
                clue_cells = clue_cells | (1u128 << (idx as u128));
                reached = reached | orbits[idx];
                proof {
                    lemma_within_cap(old_clues, idx as u128);
                    lemma_within_cap(old_clues, 1u128 << (idx as u128));
                    lemma_within_cap(old_reached, orbits@[idx as int]);
                    assert forall|c: int| 0 <= c < 128 implies (in_cells(clue_cells, c) <==> c < idx + 1
                        && sudoku.grid()[c] != 0) by {
                        lemma_cells(old_clues, idx as u128, c as u128);
                        assert(in_cells(old_clues, c) <==> c < idx && sudoku.grid()[c] != 0);
                    }
                    assert forall|c: int| 0 <= c < 128 implies (in_cells(reached, c) <==> exists|k: int|
                        0 <= k < idx + 1 && sudoku.grid()[k] != 0 && in_cells(#[trigger] orbits@[k], c)) by {
                        lemma_cell_ops(old_reached, orbits@[idx as int], c as u128);
                        if in_cells(old_reached, c) {
                            let k = choose|k: int|
                                0 <= k < idx && sudoku.grid()[k] != 0 && in_cells(#[trigger] orbits@[k], c);
                            assert(0 <= k < idx + 1 && sudoku.grid()[k] != 0 && in_cells(orbits@[k], c));
                        }
                        if in_cells(orbits@[idx as int], c) {
                            assert(0 <= idx < idx + 1 && sudoku.grid()[idx as int] != 0 && in_cells(orbits@[idx as int], c));
                        }
                        if exists|k: int| 0 <= k < idx + 1 && sudoku.grid()[k] != 0 && in_cells(#[trigger] orbits@[k], c) {
                            let k = choose|k: int|
                                0 <= k < idx + 1 && sudoku.grid()[k] != 0 && in_cells(#[trigger] orbits@[k], c);
                            if k < idx {
                                assert(in_cells(old_reached, c));
                            }
                        }
                    }
                }
            } else {
                proof {
                    assert forall|c: int| 0 <= c < 128 implies (in_cells(reached, c) <==> exists|k: int|
                        0 <= k < idx + 1 && sudoku.grid()[k] != 0 && in_cells(#[trigger] orbits@[k], c)) by {
                        if exists|k: int| 0 <= k < idx + 1 && sudoku.grid()[k] != 0 && in_cells(#[trigger] orbits@[k], c) {
                            let k = choose|k: int|
                                0 <= k < idx + 1 && sudoku.grid()[k] != 0 && in_cells(#[trigger] orbits@[k], c);
                            assert(k < idx);
                        }
                        if in_cells(reached, c) {
                            let k = choose|k: int|
                                0 <= k < idx && sudoku.grid()[k] != 0 && in_cells(#[trigger] orbits@[k], c);
                            assert(0 <= k < idx + 1 && sudoku.grid()[k] != 0 && in_cells(orbits@[k], c));
                        }
                    }
                }
            }
            idx += 1;
        }
        let required_cells = reached & !clue_cells;
        proof {
            lemma_within_cap(reached, clue_cells);
            assert forall|c: int| 0 <= c < 81 implies (#[trigger] in_cells(required_cells, c) <==> sudoku.grid()[c] == 0
                && exists|k: int| 0 <= k < 81 && sudoku.grid()[k] != 0 && in_cells(#[trigger] orbits@[k], c)) by {
                lemma_cell_ops(reached, clue_cells, c as u128);
                assert(in_cells(required_cells, c) <==> in_cells(reached, c) && !in_cells(clue_cells, c));
                assert(in_cells(clue_cells, c) <==> sudoku.grid()[c] != 0);
            }
        }
        // the first cell of each orbit, unless the orbit holds a clue or a cell that is excluded

        let mut allowed_cells: u128 = 0;
        let mut idx: usize = 0;
        proof {
            assert forall|c: int| 0 <= c < 128 implies !in_cells(allowed_cells, c) by {
                lemma_cells(0, c as u128, c as u128);
            }
        }
        while idx < 81
            invariant
                idx <= 81,
                orbits@.len() == 81,
                forall|i: int| 0 <= i < 81 ==> in_cells(#[trigger] orbits@[i], i),
                forall|c: int|
                    0 <= c < 128 ==> (#[trigger] in_cells(allowed_cells, c) <==> c < idx && leads(orbits@[c], c)),
            decreases 81 - idx,
        {
            let ghost so_far = allowed_cells;
            proof {
                lemma_leads(orbits@[idx as int], idx as int);
            }
            if orbits[idx].trailing_zeros() as usize == idx {
                allowed_cells = allowed_cells | (1u128 << idx);
            }
            proof {
                assert forall|c: int| 0 <= c < 128 implies (#[trigger] in_cells(allowed_cells, c) <==> c < idx + 1
                    && leads(orbits@[c], c)) by {
                    lemma_cells(so_far, idx as u128, c as u128);
                    assert(in_cells(so_far, c) <==> c < idx && leads(orbits@[c], c));
                }
            }
            idx += 1;
        }
        let ghost first = allowed_cells;
        let mut k: usize = 0;
        while k < excluded_cells.len()
            invariant
                k <= excluded_cells@.len(),
                orbits@.len() == 81,
                forall|j: int|
                    0 <= j < excluded_cells@.len() ==> (#[trigger] excluded_cells@[j]).0 < 9 && excluded_cells@[j].1 < 9,
                forall|c: int|
                    0 <= c < 128 ==> (#[trigger] in_cells(allowed_cells, c) <==> in_cells(first, c) && forall|j: int|
                        0 <= j < k ==> !in_cells(orbits@[9 * (#[trigger] excluded_cells@[j]).0 + excluded_cells@[j].1], c)),
            decreases excluded_cells@.len() - k,
        {
            let (y, x) = excluded_cells[k];
            let ghost so_far = allowed_cells;
            allowed_cells = allowed_cells & !orbits[9 * y + x];
            proof {
                assert(excluded_cells@[k as int] == (y, x));
                assert forall|c: int| 0 <= c < 128 implies (#[trigger] in_cells(allowed_cells, c) <==> in_cells(first, c)
                    && forall|j: int|
                    0 <= j < k + 1 ==> !in_cells(
                        orbits@[9 * (#[trigger] excluded_cells@[j]).0 + excluded_cells@[j].1],
                        c,
                    )) by {
                    lemma_cell_ops(so_far, orbits@[9 * y + x], c as u128);
                    assert(in_cells(allowed_cells, c) <==> in_cells(so_far, c) && !in_cells(orbits@[9 * y + x], c));
                    let before = forall|j: int|
                        0 <= j < k ==> !in_cells(orbits@[9 * (#[trigger] excluded_cells@[j]).0 + excluded_cells@[j].1], c);
                    assert(in_cells(so_far, c) <==> in_cells(first, c) && before);
                }
            }
            k += 1;
        }
        let ghost second = allowed_cells;
        let mut idx: usize = 0;
        while idx < 81
            invariant
                idx <= 81,
                orbits@.len() == 81,
                forall|c: int|
                    0 <= c < 128 ==> (#[trigger] in_cells(allowed_cells, c) <==> in_cells(second, c) && forall|i: int|
                        0 <= i < idx && #[trigger] sudoku.grid()[i] != 0 ==> !in_cells(orbits@[i], c)),
            decreases 81 - idx,
        {
            let ghost so_far = allowed_cells;
            if !sudoku.is_empty(idx) {
                allowed_cells = allowed_cells & !orbits[idx];
            }
            proof {
                assert forall|c: int| 0 <= c < 128 implies (#[trigger] in_cells(allowed_cells, c) <==> in_cells(second, c)
                    && forall|i: int|
                    0 <= i < idx + 1 && #[trigger] sudoku.grid()[i] != 0 ==> !in_cells(orbits@[i], c)) by {
                    lemma_cell_ops(so_far, orbits@[idx as int], c as u128);
                    let before = forall|i: int|
                        0 <= i < idx && #[trigger] sudoku.grid()[i] != 0 ==> !in_cells(orbits@[i], c);
                    assert(in_cells(so_far, c) <==> in_cells(second, c) && before);
                    if sudoku.grid()[idx as int] != 0 {
                        assert(in_cells(allowed_cells, c) <==> in_cells(so_far, c) && !in_cells(orbits@[idx as int], c));
                    }
                }
            }
            idx += 1;
        }
        let ghost masks = orbits@;
        proof {
            assert forall|c: int| 0 <= c < 81 implies (#[trigger] in_cells(allowed_cells, c) <==> may_start(
                masks,
                sudoku.grid(),
                excluded_cells@,
                c,
            )) by {
                assert(in_cells(second, c) <==> in_cells(first, c) && forall|j: int|
                    0 <= j < excluded_cells@.len() ==> !in_cells(
                        masks[9 * (#[trigger] excluded_cells@[j]).0 + excluded_cells@[j].1],
                        c,
                    ));
                assert(in_cells(first, c) <==> leads(masks[c], c));
            }
        }
        let r = PlusNSearchState {
            sudoku,
            orbits,
            allowed_cells,
            placed_cells: 0,
            required_cells,
            pending_placement: None,
            placements_remaining: n,
        };
        proof {
            assert(r.orbit_masks() == masks);
            assert forall|c: int| 0 <= c < 81 implies (#[trigger] in_cells(r.required(), c) <==> sudoku.grid()[c] == 0
                && exists|k: int| 0 <= k < 81 && sudoku.grid()[k] != 0 && in_cells(#[trigger] r.orbit_masks()[k], c)) by {
                assert(in_cells(required_cells, c) <==> sudoku.grid()[c] == 0 && exists|k: int|
                    0 <= k < 81 && sudoku.grid()[k] != 0 && in_cells(#[trigger] masks[k], c));
                if exists|k: int| 0 <= k < 81 && sudoku.grid()[k] != 0 && in_cells(#[trigger] masks[k], c) {
                    let k = choose|k: int| 0 <= k < 81 && sudoku.grid()[k] != 0 && in_cells(#[trigger] masks[k], c);
                    assert(in_cells(r.orbit_masks()[k], c));
                }
                if exists|k: int| 0 <= k < 81 && sudoku.grid()[k] != 0 && in_cells(#[trigger] r.orbit_masks()[k], c) {
                    let k = choose|k: int|
                        0 <= k < 81 && sudoku.grid()[k] != 0 && in_cells(#[trigger] r.orbit_masks()[k], c);
                    assert(in_cells(masks[k], c));
                }
            }
        }
        r
    }
}

impl Expansion {
    /// The expansion that adds `n` clues under a symmetry, at none of the
    /// cells that the text lists as `r4c1,r9c6`; nothing where the text is
    /// anything else.
    pub fn plus_n(n: usize, symmetry: DihedralSubgroup, excluded_cells_str: &str) -> (r: Option<Self>)
        ensures
            match (r, parse_cells(excluded_cells_str@)) {
                (Some(Expansion::PlusN { n: count, symmetry: group, excluded_cells }), Some(cells)) => count == n
                    && group == symmetry && no_digits(cells) && same_cells(excluded_cells@, cells),
                (None, Some(cells)) => !no_digits(cells),
                (None, None) => true,
                (Some(_), None) => false,
            },
    {
        match read_cells(excluded_cells_str) {
            None => None,
            Some(listed) => {
                let ghost cells = Seq::new(listed@.len(), |i: int| listed@[i]@);
                let mut excluded_cells: Vec<(usize, usize)> = Vec::new();
                let mut i: usize = 0;
                while i < listed.len()
                    invariant
                        i <= listed@.len(),
                        cells == Seq::new(listed@.len(), |i: int| listed@[i]@),
                        excluded_cells@.len() == i,
                        forall|j: int| 0 <= j < listed@.len() ==> (#[trigger] listed@[j]).row < 9 && listed@[j].col < 9,
                        Some(cells) == parse_cells(excluded_cells_str@),
                        forall|j: int| 0 <= j < i ==> (#[trigger] cells[j]).digits.len() == 0,
                        forall|j: int|
                            0 <= j < i ==> (#[trigger] excluded_cells@[j]) == (cells[j].row as usize, cells[j].col as usize)
                                && excluded_cells@[j].0 < 9 && excluded_cells@[j].1 < 9,
                    decreases listed@.len() - i,
                {
                    if listed[i].digits.len() != 0 {
                        proof {
                            assert(cells[i as int].digits.len() != 0);
                        }
                        return None;
                    }
                    let ghost before = excluded_cells@;
                    excluded_cells.push((listed[i].row, listed[i].col));
                    proof {
                        assert(cells[i as int] == listed@[i as int]@);
                        assert forall|j: int| 0 <= j < i + 1 implies (#[trigger] excluded_cells@[j]) == (
                            cells[j].row as usize,
                            cells[j].col as usize,
                        ) && excluded_cells@[j].0 < 9 && excluded_cells@[j].1 < 9 by {
                            if j < i {
                                assert(excluded_cells@[j] == before[j]);
                            }
                        }
                    }
                    i += 1;
                }
                Some(Expansion::PlusN { n, symmetry, excluded_cells })
            },
        }
    }

    /// The search for the grids that the expansion makes from a grid.
    pub fn expand(&self, sudoku: RegionMaskedSudoku) -> (r: DepthFirstSearcherWithProgress<PlusNSearchState>)
        requires
            sudoku.wf(),
            self.wf(),
        ensures
            r.wf(),
            !r.begun(),
            r.start().grid() == sudoku,
            r.start().pending() is None,
            r.start().placed() == 0,
            r.remaining() == subtree(r.start(), r.start().height() + 1),
            match self {
                Expansion::PlusN { n, symmetry, excluded_cells } => {
                    &&& r.start().remaining() == n
                    &&& forall|i: int, b: int|
                        0 <= i < 81 && 0 <= b < 81 ==> (#[trigger] in_cells(r.start().orbit_masks()[i], b)
                            <==> symmetry.in_orbit(i, b))
                    &&& forall|c: int|
                        0 <= c < 81 ==> (#[trigger] in_cells(r.start().required(), c) <==> sudoku.grid()[c] == 0
                            && exists|k: int|
                            0 <= k < 81 && sudoku.grid()[k] != 0 && in_cells(#[trigger] r.start().orbit_masks()[k], c))
                    &&& forall|c: int|
                        0 <= c < 81 ==> (#[trigger] in_cells(r.start().allowed(), c) <==> may_start(
                            r.start().orbit_masks(),
                            sudoku.grid(),
                            excluded_cells@,
                            c,
                        ))
                },
            },
    {
        match self {
            Expansion::PlusN { n, symmetry, excluded_cells } => {
                let root = PlusNSearchState::for_sudoku_and_symmetry(*n, sudoku, *symmetry, excluded_cells);
                DepthFirstSearcherWithProgress::new(root)
            },
        }
    }

    /// The cells that are excluded are cells of the board.
    pub open spec fn wf(&self) -> bool {
        match self {
            Expansion::PlusN { n, symmetry, excluded_cells } => forall|k: int|
                0 <= k < excluded_cells@.len() ==> (#[trigger] excluded_cells@[k]).0 < 9 && excluded_cells@[k].1 < 9,
        }
    }
}

} // verus!
