//! The grids that fit a template, found by depth-first search.

use vstd::prelude::*;
use crate::bitmask::Bitmask;
use crate::bits::{bit_indices, has_bit, lemma_bit_indices, popcount};
use crate::dfs_with_progress::{
    DepthFirstSearcherWithProgress, DepthFirstTraversable, forest, lemma_subtree_all, lemma_subtree_has, subtree,
};
use crate::pipeline::{ALL_DIGITS_MASK, RegionMaskedSudoku, has_digit, lemma_digit_bound, lemma_digit_masks};
use crate::sudoku::{is_valid_grid, peers};
use crate::template::{Template, TemplateCell, TemplateDigit, cell_ok, digits_ok};

verus! {

/// Where the grids of a pipeline come from.
pub enum GenerationBase {
    /// The grids that fit a template.
    Template(Template),
}

impl GenerationBase {
    /// The search that yields the grids.
    pub fn iter(&self) -> (r: DepthFirstSearcherWithProgress<TemplateGeneratorState>)
        requires
            match self {
                GenerationBase::Template(template) => template.wf(),
            },
        ensures
            r.wf(),
            !r.begun(),
            match self {
                GenerationBase::Template(template) => r.start().fits(template.cells()),
            },
            r.remaining() == subtree(r.start(), r.start().height() + 1),
    {
        match self {
            GenerationBase::Template(template) => {
                DepthFirstSearcherWithProgress::new(TemplateGeneratorState::for_template(template))
            },
        }
    }
}

/// Whether cells `i` and `j` of a template are peers that are given the
/// same digit.
pub open spec fn clash_at(cells: Seq<TemplateCell>, i: int, j: int) -> bool {
    peers(i, j) && (cells[i] is Given) && cells[i] == cells[j]
}

/// Whether two of the first `n` cells of a template are peers that are
/// given the same digit.
pub open spec fn givens_clash(cells: Seq<TemplateCell>, n: int) -> bool {
    exists|i: int, j: int| 0 <= i < n && 0 <= j < n && #[trigger] clash_at(cells, i, j)
}

/// Whether a grid fits the cells of a template: it is valid, each given
/// is in its place, each cell with several digits holds one of them, and the
/// other cells are empty.
pub open spec fn fits_cells(cells: Seq<TemplateCell>, g: Seq<u8>) -> bool {
    &&& is_valid_grid(g)
    &&& forall|i: int|
        0 <= i < 81 ==> match #[trigger] cells[i] {
            TemplateCell::Given(d) => g[i] == d,
            TemplateCell::Wildcard(ds) => has_digit(mask_of_digits(ds), g[i] as int),
            TemplateCell::Empty => g[i] == 0,
        }
}

/// Whether the grid `out` holds every digit that the grid `g` holds.
pub open spec fn keeps(g: Seq<u8>, out: Seq<u8>) -> bool {
    forall|i: int| 0 <= i < 81 && g[i] != 0 ==> out[i] == #[trigger] g[i]
}

/// The mask of the digits of a list.
pub open spec fn mask_of_digits(ds: Seq<u8>) -> u16
    decreases ds.len(),
{
    if ds.len() == 0 {
        0
    } else {
        mask_of_digits(ds.drop_last()) | (1u16 << ds.last())
    }
}

/// The digits of a mask, lowest first.
pub fn digits_of_mask(mask: u16) -> (r: Vec<u8>)
    ensures
        r@.len() == bit_indices(mask as u128).len(),
        forall|k: int| 0 <= k < r@.len() ==> #[trigger] r@[k] == bit_indices(mask as u128)[k] as u8,
{
    let mut found: Vec<u8> = Vec::new();
    let mut digits = Bitmask::<u16>::from(mask).as_bit_iter();
    let ghost all = bit_indices(mask as u128);
    let mut next = digits.next();
    proof {
        lemma_bit_indices(mask as u128);
    }
    while next.is_some()
        invariant
            all == bit_indices(mask as u128),
            found@.len() <= all.len(),
            forall|k: int| 0 <= k < all.len() ==> #[trigger] all[k] < 128,
            forall|k: int| 0 <= k < found@.len() ==> #[trigger] found@[k] == all[k] as u8,
            match next {
                None => found@.len() == all.len(),
                Some(d) => found@.len() < all.len() && d == all[found@.len() as int] && digits.remaining() == all.skip(
                    found@.len() as int + 1,
                ),
            },
        decreases all.len() - found@.len(),
    {
        let d = next.unwrap();
        let ghost rest = digits.remaining();
        let ghost before = found@;
        let ghost left = digits@;
        found.push(d as u8);
        next = digits.next();
        proof {
            if next is None {
                assert(bit_indices(0u128).len() == 0);
            }
            assert forall|k: int| 0 <= k < found@.len() implies #[trigger] found@[k] == all[k] as u8 by {
                if k < before.len() {
                    assert(found@[k] == before[k]);
                }
            }
            if rest.len() > 0 {
                assert(rest[0] == all[found@.len() as int]);
                assert(rest.drop_first() =~= all.skip(found@.len() as int + 1));
            } else {
                assert(all.skip(found@.len() as int).len() == 0);
            }
        }
    }
    found
}

/// A structure capable of iterating over all partial Sudoku grids fitting
/// a particular template.
pub struct TemplateGeneratorState {
    sudoku: RegionMaskedSudoku,
    wildcards: Vec<(usize, u16)>,
    placement_count: usize,
    blocked: bool,
}

impl TemplateGeneratorState {
    /// The grid as it is filled so far.
    pub closed spec fn grid(&self) -> RegionMaskedSudoku {
        self.sudoku
    }

    /// The cells that are to hold one of several digits, each with the
    /// mask of its digits, in the order of the cells.
    pub closed spec fn choices(&self) -> Seq<(usize, u16)> {
        self.wildcards@
    }

    /// How many of those cells hold a digit.
    pub closed spec fn chosen(&self) -> nat {
        self.placement_count as nat
    }

    /// Whether two givens of the template stand against each other: the
    /// search then yields nothing.
    pub closed spec fn is_blocked(&self) -> bool {
        self.blocked
    }

    /// Whether the `w`-th of the cells with several digits is still empty.
    pub open spec fn open(&self, w: int) -> bool {
        self.grid().grid()[self.choices()[w].0 as int] == 0
    }

    /// The digits that can go to the `w`-th of the cells with several
    /// digits: those of the template that the grid leaves open.
    pub open spec fn live(&self, w: int) -> u16 {
        self.choices()[w].1 & self.grid().candidate_mask(self.choices()[w].0 as int)
    }

    /// How many of the first `n` cells with several digits are still empty.
    pub open spec fn open_count(&self, n: int) -> nat
        decreases n,
    {
        if n <= 0 {
            0
        } else {
            self.open_count(n - 1) + (if self.open(n - 1) { 1nat } else { 0nat })
        }
    }

    /// Among the first `n` cells with several digits, the first of those
    /// that are empty and have the fewest live digits.
    pub open spec fn best_upto(&self, n: int) -> Option<int>
        decreases n,
    {
        if n <= 0 {
            None
        } else {
            let prev = self.best_upto(n - 1);
            if !self.open(n - 1) {
                prev
            } else {
                match prev {
                    None => Some(n - 1),
                    Some(p) => if popcount(self.live(n - 1) as u128) < popcount(self.live(p) as u128) {
                        Some(n - 1)
                    } else {
                        Some(p)
                    },
                }
            }
        }
    }

    /// The steps that fill cell `idx` with each digit of `mask`, lowest first.
    pub open spec fn steps_for(idx: usize, mask: u16) -> Seq<(usize, u8)> {
        Seq::new(bit_indices(mask as u128).len(), |k: int| (idx, bit_indices(mask as u128)[k] as u8))
    }

    /// The state with `d` placed at cell `idx`.
    pub closed spec fn with_step(&self, idx: usize, d: u8) -> Self {
        TemplateGeneratorState {
            sudoku: self.sudoku.with_digit(idx as int, d),
            wildcards: self.wildcards,
            placement_count: (self.placement_count + 1) as usize,
            blocked: self.blocked,
        }
    }

    /// The grid is in order; the cells with several digits come in their
    /// order, each with digits from 1 to 9; and the count is the count of
    /// those that hold a digit.
    pub closed spec fn inv(&self) -> bool {
        &&& self.sudoku.wf()
        &&& self.wildcards@.len() <= 81
        &&& forall|w: int| 0 <= w < self.wildcards@.len() ==> (#[trigger] self.wildcards@[w]).0 < 81
        &&& forall|w: int| 0 <= w < self.wildcards@.len() ==> (#[trigger] self.wildcards@[w]).1 & !ALL_DIGITS_MASK == 0
        &&& forall|v: int, w: int|
            0 <= v < w < self.wildcards@.len() ==> (#[trigger] self.wildcards@[v]).0 < (#[trigger] self.wildcards@[w]).0
        &&& self.placement_count + self.open_count(self.wildcards@.len() as int) == self.wildcards@.len()
    }

    /// Whether the state is the start of the search for the grids that fit
    /// the cells of a template: it is blocked where two givens stand
    /// against each other and only there; the givens are placed, unless
    /// it is blocked; and the cells with several digits are empty and noted
    /// with their digits, in the order of the cells.
    pub open spec fn fits(&self, cells: Seq<TemplateCell>) -> bool {
        &&& self.wf()
        &&& self.chosen() == 0
        &&& cells.len() == 81
        &&& self.is_blocked() <==> givens_clash(cells, 81)
        &&& !self.is_blocked() ==> forall|i: int|
            0 <= i < 81 ==> #[trigger] self.grid().grid()[i] == (match cells[i] {
                TemplateCell::Given(d) => d,
                _ => 0u8,
            })
        &&& forall|w: int|
            0 <= w < self.choices().len() ==> (#[trigger] self.choices()[w]).0 < 81 && cells[self.choices()[w].0 as int]
                == TemplateCell::Wildcard(
                choose|ds: Seq<u8>| cells[self.choices()[w].0 as int] == TemplateCell::Wildcard(ds),
            ) && self.choices()[w].1 == mask_of_digits(
                choose|ds: Seq<u8>| cells[self.choices()[w].0 as int] == TemplateCell::Wildcard(ds),
            )
        &&& forall|v: int, w: int|
            0 <= v < w < self.choices().len() ==> (#[trigger] self.choices()[v]).0 < (#[trigger] self.choices()[w]).0
        &&& forall|i: int|
            0 <= i < 81 && (cells[i] is Wildcard) ==> exists|w: int|
                0 <= w < self.choices().len() && (#[trigger] self.choices()[w]).0 == i
    }

    /// The grid as it is filled so far.
    pub fn board(&self) -> (r: &RegionMaskedSudoku)
        ensures
            *r == self.grid(),
    {
        &self.sudoku
    }

    /// The state from which the search for the grids of a template starts.
    pub fn for_template(template: &Template) -> (r: Self)
        requires
            template.wf(),
        ensures
            r.wf(),
            r.fits(template.cells()),
            r.is_blocked() <==> givens_clash(template.cells(), 81),
    {
        let mut state = TemplateGeneratorState {
            sudoku: RegionMaskedSudoku::empty(),
            wildcards: Vec::new(),
            placement_count: 0,
            blocked: false,
        };
        let cells = template.digits();
        let ghost spec_cells = template.cells();
        proof {
            template.lemma_cells();
        }
        let mut idx: usize = 0;
        while idx < 81
            invariant
                idx <= 81,
                cells@.len() == 81,
                spec_cells.len() == 81,
                forall|i: int| 0 <= i < 81 ==> cells@[i]@ == #[trigger] spec_cells[i],
                forall|i: int| 0 <= i < 81 ==> cell_ok(#[trigger] spec_cells[i]),
                state.sudoku.wf(),
                state.placement_count == 0,
                state.wildcards@.len() <= idx,
                forall|w: int| 0 <= w < state.wildcards@.len() ==> (#[trigger] state.wildcards@[w]).0 < idx,
                forall|w: int|
                    0 <= w < state.wildcards@.len() ==> (#[trigger] state.wildcards@[w]).1 & !ALL_DIGITS_MASK == 0,
                forall|v: int, w: int|
                    0 <= v < w < state.wildcards@.len() ==> (#[trigger] state.wildcards@[v]).0
                        < (#[trigger] state.wildcards@[w]).0,
                forall|w: int|
                    0 <= w < state.wildcards@.len() ==> state.sudoku.grid()[(#[trigger] state.wildcards@[w]).0 as int]
                        == 0,
                !state.blocked ==> forall|i: int|
                    0 <= i < 81 ==> #[trigger] state.sudoku.grid()[i] == (if i < idx {
                        match spec_cells[i] {
                            TemplateCell::Given(d) => d,
                            _ => 0u8,
                        }
                    } else {
                        0u8
                    }),
                forall|i: int| idx <= i < 81 ==> #[trigger] state.sudoku.grid()[i] == 0,
                state.blocked <==> givens_clash(spec_cells, idx as int),
                forall|w: int|
                    0 <= w < state.wildcards@.len() ==> spec_cells[(#[trigger] state.wildcards@[w]).0 as int]
                        == TemplateCell::Wildcard(
                        choose|ds: Seq<u8>| spec_cells[state.wildcards@[w].0 as int] == TemplateCell::Wildcard(ds),
                    ) && state.wildcards@[w].1 == mask_of_digits(
                        choose|ds: Seq<u8>| spec_cells[state.wildcards@[w].0 as int] == TemplateCell::Wildcard(ds),
                    ),
                forall|i: int|
                    0 <= i < idx && (spec_cells[i] is Wildcard) ==> exists|w: int|
                        0 <= w < state.wildcards@.len() && (#[trigger] state.wildcards@[w]).0 == i,
            decreases 81 - idx,
        {
            let ghost before = state.wildcards@;
            let ghost was = state;
            proof {
                assert(cells@[idx as int]@ == spec_cells[idx as int]);
                if !(spec_cells[idx as int] is Given) {
                    assert forall|i: int, j: int| !(0 <= i < idx + 1 && j == idx && clash_at(spec_cells, i, j)) by {}
                    assert(givens_clash(spec_cells, idx + 1) == givens_clash(spec_cells, idx as int));
                }
            }
            match &cells[idx] {
                TemplateDigit::Empty => {},
                TemplateDigit::Given(d) => {
                    let d = *d;
                    proof {
                        assert(cell_ok(spec_cells[idx as int]));
                        assert(spec_cells[idx as int] == TemplateCell::Given(d));
                        lemma_digit_masks(0, 0, 0, d as u16, d as u16);
                    }
                    let open = state.sudoku.candidates(idx);
                    proof {
                        if !was.blocked {
                            was.sudoku.lemma_peer_holds(idx as int, d as int);
                            if has_digit(was.sudoku.candidate_mask(idx as int), d as int) {
                                assert forall|i: int, j: int|
                                    !(0 <= i < idx + 1 && 0 <= j < idx + 1 && clash_at(spec_cells, i, j)) by {
                                    if 0 <= i < idx + 1 && 0 <= j < idx + 1 && clash_at(spec_cells, i, j) {
                                        if i < idx && j < idx {
                                            assert(givens_clash(spec_cells, idx as int));
                                        } else {
                                            let other = if i == idx { j } else { i };
                                            assert(was.sudoku.grid()[other] == d);
                                        }
                                    }
                                }
                            } else {
                                let i = choose|i: int| 0 <= i < 81 && peers(i, idx as int) && was.sudoku.grid()[i] == d;
                                assert(i < idx);
                                assert(spec_cells[i] == TemplateCell::Given(d));
                                assert(clash_at(spec_cells, i, idx as int));
                                assert(givens_clash(spec_cells, idx + 1));
                            }
                        } else {
                            let (i, j) = choose|i: int, j: int| 0 <= i < idx && 0 <= j < idx && clash_at(spec_cells, i, j);
                            assert(0 <= i < idx + 1 && 0 <= j < idx + 1 && clash_at(spec_cells, i, j));
                        }
                    }
                    if open.contains(d as usize) {
                        state.sudoku.place(idx, d);
                    } else {
                        state.blocked = true;
                    }
                },
                TemplateDigit::Wildcard(ds) => {
                    proof {
                        assert(cell_ok(spec_cells[idx as int]));
                        assert(cells@[idx as int]@ == TemplateCell::Wildcard(ds@));
                        assert(spec_cells[idx as int] == TemplateCell::Wildcard(ds@));
                        assert(cell_ok(TemplateCell::Wildcard(ds@)));
                        assert(digits_ok(ds@));
                    }
                    let mask = Self::digits_mask(ds);
                    state.wildcards.push((idx, mask));
                    proof {
                        assert(cell_ok(spec_cells[idx as int]));
                        let now = state.wildcards@;
                        assert forall|w: int| 0 <= w < now.len() implies spec_cells[(#[trigger] now[w]).0 as int]
                            == TemplateCell::Wildcard(
                            choose|ds: Seq<u8>| spec_cells[now[w].0 as int] == TemplateCell::Wildcard(ds),
                        ) && now[w].1 == mask_of_digits(
                            choose|ds: Seq<u8>| spec_cells[now[w].0 as int] == TemplateCell::Wildcard(ds),
                        ) by {
                            if w < before.len() {
                                assert(now[w] == before[w]);
                            } else {
                                assert(spec_cells[idx as int] == TemplateCell::Wildcard(ds@));
                            }
                        }
                        assert forall|i: int| 0 <= i < idx + 1 && (spec_cells[i] is Wildcard) implies exists|w: int|
                            0 <= w < now.len() && (#[trigger] now[w]).0 == i by {
                            if i < idx {
                                let w = choose|w: int| 0 <= w < before.len() && (#[trigger] before[w]).0 == i;
                                assert(now[w].0 == i);
                            } else {
                                assert(now[now.len() - 1].0 == i);
                            }
                        }
                    }
                },
            }
            idx += 1;
        }
        proof {
            state.lemma_all_open(state.wildcards@.len() as int);
        }
        state
    }

    /// The mask of the digits of a wildcard.
    fn digits_mask(ds: &Vec<u8>) -> (r: u16)
        requires
            digits_ok(ds@),
        ensures
            r == mask_of_digits(ds@),
            r & !ALL_DIGITS_MASK == 0,
    {
        let mut mask: u16 = 0;
        let mut k: usize = 0;
        proof {
            lemma_digit_bound(0, 0);
        }
        while k < ds.len()
            invariant
                k <= ds@.len(),
                digits_ok(ds@),
                mask == mask_of_digits(ds@.subrange(0, k as int)),
                mask & !ALL_DIGITS_MASK == 0,
            decreases ds@.len() - k,
        {
            proof {
                assert(ds@.subrange(0, k + 1).drop_last() =~= ds@.subrange(0, k as int));
                lemma_digit_masks(mask, 0, 0, ds@[k as int] as u16, 0);
            }
            mask = mask | (1u16 << ds[k]);
            k += 1;
        }
        proof {
            assert(ds@.subrange(0, k as int) =~= ds@);
        }
        mask
    }

    /// Where every cell with several digits is empty, all of them count.
    proof fn lemma_all_open(&self, n: int)
        requires
            0 <= n <= self.wildcards@.len(),
            forall|w: int| 0 <= w < self.wildcards@.len() ==> self.sudoku.grid()[(#[trigger] self.wildcards@[w]).0 as int]
                == 0,
        ensures
            self.open_count(n) == n,
        decreases n,
    {
        if n > 0 {
            self.lemma_all_open(n - 1);
            assert(self.open(n - 1));
        }
    }

    /// Decide which digit placement to branch on - use the one with the
    /// smallest branching factor
    fn best_branch_digit(&self) -> (r: Option<(usize, u16)>)
        requires
            self.inv(),
        ensures
            match self.best_upto(self.choices().len() as int) {
                None => r is None,
                Some(w) => 0 <= w < self.choices().len() && self.open(w) && r == Some(
                    (self.choices()[w].0, self.live(w)),
                ),
            },
    {
        let mut best: Option<(usize, u16)> = None;
        let mut best_count: u32 = 0;
        let mut w: usize = 0;
        while w < self.wildcards.len()
            invariant
                w <= self.wildcards@.len(),
                self.inv(),
                match self.best_upto(w as int) {
                    None => best is None,
                    Some(p) => 0 <= p < w && self.open(p) && best == Some((self.choices()[p].0, self.live(p)))
                        && best_count == popcount(self.live(p) as u128),
                },
            decreases self.wildcards@.len() - w,
        {
            let (idx, mask) = self.wildcards[w];
            if self.sudoku.is_empty(idx) {
                let live = mask & self.sudoku.candidates(idx).into_inner();
                let count = live.count_ones();
                let better = match best {
                    None => true,
                    Some(_) => count < best_count,
                };
                if better {
                    best = Some((idx, live));
                    best_count = count;
                }
            }
            w += 1;
        }
        best
    }

    /// The steps that fill a cell with each digit of a mask, lowest first.
    fn steps_of(idx: usize, mask: u16) -> (r: Vec<(usize, u8)>)
        ensures
            r@ == Self::steps_for(idx, mask),
    {
        let digits = digits_of_mask(mask);
        let mut steps: Vec<(usize, u8)> = Vec::new();
        let mut k: usize = 0;
        while k < digits.len()
            invariant
                k <= digits@.len(),
                steps@.len() == k,
                forall|j: int| 0 <= j < k ==> #[trigger] steps@[j] == (idx, digits@[j]),
            decreases digits@.len() - k,
        {
            steps.push((idx, digits[k]));
            k += 1;
        }
        proof {
            assert(steps@ =~= Self::steps_for(idx, mask));
        }
        steps
    }
}

impl TemplateGeneratorState {
    /// The grid of a state that is in order is in order.
    pub proof fn lemma_grid_wf(&self)
        requires
            self.inv(),
        ensures
            self.grid().wf(),
    {
    }

    /// The steps of a state fill the cell that is chosen, the `w`-th of the
    /// cells with several digits, with each of its live digits: as many
    /// steps as the mask of the live digits has bits, one for each digit of
    /// the mask, in ascending order of the digits.
    pub proof fn lemma_steps(&self, w: int)
        requires
            self.best_upto(self.choices().len() as int) == Some(w),
        ensures
            self.steps().len() == popcount(self.live(w) as u128),
            forall|k: int|
                0 <= k < self.steps().len() ==> (#[trigger] self.steps()[k]).0 == self.choices()[w].0 && has_digit(
                    self.live(w),
                    self.steps()[k].1 as int,
                ),
            forall|j: int, k: int|
                0 <= j < k < self.steps().len() ==> (#[trigger] self.steps()[j]).1 < (#[trigger] self.steps()[k]).1,
            forall|d: int|
                has_digit(self.live(w), d) ==> exists|k: int|
                    0 <= k < self.steps().len() && (#[trigger] self.steps()[k]).1 == d,
    {
        let m = self.live(w);
        let x = m as u128;
        let all = bit_indices(x);
        lemma_bit_indices(x);
        assert forall|b: nat| b < 128 implies (has_bit(x, b) <==> has_digit(m, b as int)) by {
            lemma_digit_bound(m, b as u16);
        }
        assert forall|k: int| 0 <= k < all.len() implies #[trigger] all[k] < 16 by {
            assert(has_bit(x, all[k]));
        }
        assert forall|d: int| has_digit(m, d) implies exists|k: int|
            0 <= k < self.steps().len() && (#[trigger] self.steps()[k]).1 == d by {
            assert(has_bit(x, d as nat));
            let k = choose|k: int| 0 <= k < all.len() && #[trigger] all[k] == d as nat;
            assert(self.steps()[k].1 == d);
        }
    }

    /// Whether the state is one of the search that starts at `start` for
    /// the grids that fit the cells of a template: the givens are placed,
    /// and each cell with several digits is empty or holds one of them.
    spec fn filling(&self, start: &Self, cells: Seq<TemplateCell>) -> bool {
        &&& self.inv()
        &&& start.fits(cells)
        &&& !self.blocked
        &&& self.wildcards == start.wildcards
        &&& forall|i: int|
            0 <= i < 81 ==> match #[trigger] cells[i] {
                TemplateCell::Given(d) => self.sudoku.grid()[i] == d,
                TemplateCell::Wildcard(ds) => self.sudoku.grid()[i] == 0 || has_digit(
                    mask_of_digits(ds),
                    self.sudoku.grid()[i] as int,
                ),
                TemplateCell::Empty => self.sudoku.grid()[i] == 0,
            }
    }

    /// A step leads from a state of the search to a state of the search.
    proof fn lemma_filling_step(&self, start: &Self, cells: Seq<TemplateCell>, i: int)
        requires
            self.filling(start, cells),
            0 <= i < self.steps().len(),
        ensures
            self.after(self.steps()[i]).filling(start, cells),
    {
        let s = *self;
        let step = s.steps()[i];
        assert(s.steps().contains(step));
        let w = s.lemma_step_facts(step);
        s.lemma_steps(w);
        s.lemma_after(step);
        lemma_digit_four(s.choices()[w].1, s.grid().candidate_mask(step.0 as int), step.1 as u16);
        s.sudoku.lemma_with_digit(step.0 as int, step.1);
        let after = s.with_step(step.0, step.1);
        assert(start.choices()[w] == s.choices()[w]);
        assert forall|j: int| 0 <= j < 81 implies match #[trigger] cells[j] {
            TemplateCell::Given(d) => after.sudoku.grid()[j] == d,
            TemplateCell::Wildcard(ds) => after.sudoku.grid()[j] == 0 || has_digit(
                mask_of_digits(ds),
                after.sudoku.grid()[j] as int,
            ),
            TemplateCell::Empty => after.sudoku.grid()[j] == 0,
        } by {
            if j == step.0 {
                assert(cells[j] is Wildcard);
            }
        }
    }

    /// The search emits every grid that fits the cells of the template
    /// and holds the digits of this state, from this state on.
    proof fn lemma_reaches(&self, start: &Self, cells: Seq<TemplateCell>, g: Seq<u8>, fuel: nat)
        requires
            self.filling(start, cells),
            fits_cells(cells, g),
            forall|i: int| 0 <= i < 81 && self.sudoku.grid()[i] != 0 ==> g[i] == #[trigger] self.sudoku.grid()[i],
            fuel > self.open_count(self.choices().len() as int),
        ensures
            exists|k: int| 0 <= k < subtree(*self, fuel).len() && (#[trigger] subtree(*self, fuel)[k]).grid() == g,
        decreases self.open_count(self.choices().len() as int),
    {
        let n = self.choices().len() as int;
        self.lemma_best(n);
        if self.open_count(n) == 0 {
            assert forall|j: int| 0 <= j < 81 implies self.sudoku.grid()[j] == g[j] by {
                if cells[j] is Wildcard {
                    let w = choose|w: int| 0 <= w < start.choices().len() && (#[trigger] start.choices()[w]).0 == j;
                    assert(self.choices()[w].0 == j);
                    assert(!self.open(w));
                }
            }
            assert(self.sudoku.grid() =~= g);
            assert(self.emits() == Some(self.grid()));
            assert(subtree(*self, fuel)[0] == self.grid());
        } else {
            let w = self.best_upto(n).unwrap();
            let idx = self.choices()[w].0;
            let d = g[idx as int];
            assert(start.choices()[w] == self.choices()[w]);
            assert(cells[idx as int] is Wildcard);
            assert(has_digit(self.choices()[w].1, d as int));
            assert(self.sudoku.grid()[idx as int] == 0);
            assert(d <= 9);
            assert(self.choices()[w].1 & !ALL_DIGITS_MASK == 0);
            lemma_digit_bound(self.choices()[w].1, d as u16);
            assert(1 <= d <= 9);
            self.sudoku.lemma_peer_holds(idx as int, d as int);
            assert forall|i: int| 0 <= i < 81 && peers(i, idx as int) implies #[trigger] self.sudoku.grid()[i] != d by {
                if self.sudoku.grid()[i] != 0 {
                    assert(g[i] == self.sudoku.grid()[i]);
                    assert(peers(idx as int, i));
                    assert(g[idx as int] != 0);
                    assert(g[idx as int] != g[i]);
                }
            }
            lemma_digit_four(self.choices()[w].1, self.grid().candidate_mask(idx as int), d as u16);
            assert(has_digit(self.live(w), d as int));
            self.lemma_steps(w);
            let k = choose|k: int| 0 <= k < self.steps().len() && (#[trigger] self.steps()[k]).1 == d;
            let step = self.steps()[k];
            assert(step == (idx, d));
            assert(self.steps().contains(step));
            self.lemma_filling_step(start, cells, k);
            self.lemma_after(step);
            let after = self.after(step);
            self.sudoku.lemma_with_digit(idx as int, d);
            after.lemma_reaches(start, cells, g, (fuel - 1) as nat);
            let below = subtree(after, (fuel - 1) as nat);
            let j = choose|j: int| 0 <= j < below.len() && (#[trigger] below[j]).grid() == g;
            assert(below.contains(below[j]));
            lemma_subtree_has(*self, fuel, k, below[j]);
            let up = subtree(*self, fuel);
            let m = choose|m: int| 0 <= m < up.len() && up[m] == below[j];
            assert(up[m].grid() == g);
        }
    }

    /// What the search emits from a state of the search holds the digits
    /// of the state, and no grid is emitted twice.
    proof fn lemma_once_below(&self, start: &Self, cells: Seq<TemplateCell>, fuel: nat)
        requires
            self.filling(start, cells),
        ensures
            forall|a: int|
                0 <= a < subtree(*self, fuel).len() ==> keeps(
                    self.sudoku.grid(),
                    (#[trigger] subtree(*self, fuel)[a]).grid(),
                ),
            forall|a: int, b: int|
                0 <= a < b < subtree(*self, fuel).len() ==> (#[trigger] subtree(*self, fuel)[a]).grid() != (
                #[trigger] subtree(*self, fuel)[b]).grid(),
        decreases fuel, 0nat, 0nat,
    {
        if fuel > 0 {
            if self.emits() is Some {
                self.lemma_emits_leaf();
                assert(DepthFirstTraversable::steps(self).len() == 0);
                assert(subtree(*self, fuel) =~= seq![self.grid()]);
            } else {
                assert(subtree(*self, fuel) =~= forest(*self, 0, (fuel - 1) as nat));
                self.lemma_once_from(start, cells, 0, (fuel - 1) as nat);
            }
        }
    }

    /// See [`Self::lemma_once_below`], for what the search emits from the
    /// states that the steps from the `j`-th on lead to: each of those
    /// grids holds the digit of one of those steps at the cell of the
    /// steps.
    proof fn lemma_once_from(&self, start: &Self, cells: Seq<TemplateCell>, j: int, fuel: nat)
        requires
            self.filling(start, cells),
            0 <= j,
        ensures
            forall|a: int|
                0 <= a < forest(*self, j, fuel).len() ==> keeps(
                    self.sudoku.grid(),
                    (#[trigger] forest(*self, j, fuel)[a]).grid(),
                ) && exists|m: int|
                    j <= m < DepthFirstTraversable::steps(self).len() && forest(
                        *self,
                        j,
                        fuel,
                    )[a].grid()[(#[trigger] DepthFirstTraversable::steps(self)[m]).0 as int]
                        == DepthFirstTraversable::steps(self)[m].1,
            forall|a: int, b: int|
                0 <= a < b < forest(*self, j, fuel).len()
                    ==> (#[trigger] forest(*self, j, fuel)[a]).grid() != (
                #[trigger] forest(*self, j, fuel)[b]).grid(),
        decreases fuel, 1nat, DepthFirstTraversable::steps(self).len() - j,
    {
        let steps = DepthFirstTraversable::steps(self);
        if j < steps.len() {
            let step = steps[j];
            assert(steps.contains(step));
            let w = self.lemma_step_facts(step);
            self.lemma_steps(w);
            self.lemma_filling_step(start, cells, j);
            self.sudoku.lemma_with_digit(step.0 as int, step.1);
            let after = DepthFirstTraversable::after(self, step);
            after.lemma_once_below(start, cells, fuel);
            self.lemma_once_from(start, cells, j + 1, fuel);
            let all = forest(*self, j, fuel);
            let first = subtree(after, fuel);
            let rest = forest(*self, j + 1, fuel);
            assert(all == first + rest);
            assert forall|a: int| 0 <= a < all.len() implies keeps(self.sudoku.grid(), (#[trigger] all[a]).grid())
                && exists|m: int|
                j <= m < steps.len() && all[a].grid()[(#[trigger] steps[m]).0 as int] == steps[m].1 by {
                if a < first.len() {
                    assert(all[a] == first[a]);
                    assert(keeps(after.sudoku.grid(), first[a].grid()));
                    assert(after.sudoku.grid()[step.0 as int] == step.1);
                    assert(first[a].grid()[step.0 as int] == step.1);
                    assert(steps[j] == step);
                    assert forall|i: int| 0 <= i < 81 && self.sudoku.grid()[i] != 0 implies first[a].grid()[i]
                        == #[trigger] self.sudoku.grid()[i] by {
                        assert(after.sudoku.grid()[i] == self.sudoku.grid()[i]);
                    }
                } else {
                    assert(all[a] == rest[a - first.len()]);
                    let m = choose|m: int|
                        j + 1 <= m < steps.len() && rest[a - first.len()].grid()[(#[trigger] steps[m]).0 as int]
                            == steps[m].1;
                    assert(j <= m < steps.len() && all[a].grid()[steps[m].0 as int] == steps[m].1);
                }
            }
            assert forall|a: int, b: int| 0 <= a < b < all.len() implies (#[trigger] all[a]).grid() != (
            #[trigger] all[b]).grid() by {
                if b < first.len() {
                    assert(all[a] == first[a] && all[b] == first[b]);
                } else if a >= first.len() {
                    assert(all[a] == rest[a - first.len()] && all[b] == rest[b - first.len()]);
                } else {
                    assert(all[a] == first[a] && all[b] == rest[b - first.len()]);
                    assert(keeps(after.sudoku.grid(), first[a].grid()));
                    assert(after.sudoku.grid()[step.0 as int] == step.1);
                    assert(first[a].grid()[step.0 as int] == step.1);
                    let m = choose|m: int|
                        j + 1 <= m < steps.len() && rest[b - first.len()].grid()[(#[trigger] steps[m]).0 as int]
                            == steps[m].1;
                    assert(steps[m].0 == step.0);
                    assert(steps[j].1 < steps[m].1);
                }
            }
        }
    }

    /// The search from the start state for a template emits no grid
    /// twice.
    pub proof fn lemma_once(&self, cells: Seq<TemplateCell>, fuel: nat)
        requires
            self.fits(cells),
        ensures
            forall|a: int, b: int|
                0 <= a < b < subtree(*self, fuel).len() ==> (#[trigger] subtree(*self, fuel)[a]).grid() != (
                #[trigger] subtree(*self, fuel)[b]).grid(),
    {
        let start = *self;
        if self.blocked {
            assert(subtree(*self, fuel) =~= Seq::<RegionMaskedSudoku>::empty());
        } else {
            self.lemma_once_below(&start, cells, fuel);
        }
    }

    /// The search from the start state for a template emits every grid
    /// that fits the cells of the template, unless two givens stand against
    /// each other: then no grid fits them.
    pub proof fn lemma_complete(&self, cells: Seq<TemplateCell>, g: Seq<u8>)
        requires
            self.fits(cells),
            fits_cells(cells, g),
            forall|i: int| 0 <= i < 81 ==> cell_ok(#[trigger] cells[i]),
        ensures
            !self.is_blocked(),
            exists|k: int|
                0 <= k < subtree(*self, self.height() + 1).len() && (#[trigger] subtree(*self, self.height() + 1)[k]).grid()
                    == g,
    {
        if self.is_blocked() {
            let (i, j) = choose|i: int, j: int| 0 <= i < 81 && 0 <= j < 81 && #[trigger] clash_at(cells, i, j);
            assert(cell_ok(cells[i]) && cell_ok(cells[j]));
            assert(g[i] == g[j] && g[i] != 0);
            assert(peers(i, j));
            assert(g[i] != g[j]);
            assert(false);
        }
        let start = *self;
        assert(self.filling(&start, cells));
        self.lemma_reaches(&start, cells, g, self.height() + 1);
    }

    /// What the search emits from the start state for a template fits the
    /// cells of the template: see [`fits_cells`].
    pub proof fn lemma_fitting(&self, cells: Seq<TemplateCell>, fuel: nat)
        requires
            self.fits(cells),
        ensures
            forall|k: int|
                0 <= k < subtree(*self, fuel).len() ==> fits_cells(cells, (#[trigger] subtree(*self, fuel)[k]).grid()),
    {
        let start = *self;
        let inv = |s: TemplateGeneratorState| s.filling(&start, cells);
        let good = |o: RegionMaskedSudoku| fits_cells(cells, o.grid());
        if self.blocked {
            assert(subtree(*self, fuel) =~= Seq::<RegionMaskedSudoku>::empty());
        } else {
            assert(inv(*self));
            assert forall|s: TemplateGeneratorState, i: int|
                inv(s) && !s.pruned() && 0 <= i < s.steps().len() implies inv(#[trigger] s.after(s.steps()[i])) by {
                s.lemma_filling_step(&start, cells, i);
            }
            assert forall|s: TemplateGeneratorState| #[trigger] inv(s) && s.emits() is Some implies good(
                s.emits().unwrap(),
            ) by {
                let n = s.choices().len() as int;
                s.lemma_best(n);
                assert forall|j: int| 0 <= j < 81 implies match #[trigger] cells[j] {
                    TemplateCell::Given(d) => s.sudoku.grid()[j] == d,
                    TemplateCell::Wildcard(ds) => has_digit(mask_of_digits(ds), s.sudoku.grid()[j] as int),
                    TemplateCell::Empty => s.sudoku.grid()[j] == 0,
                } by {
                    if cells[j] is Wildcard {
                        let w = choose|w: int| 0 <= w < start.choices().len() && (#[trigger] start.choices()[w]).0 == j;
                        assert(s.choices()[w].0 == j);
                        assert(!s.open(w));
                    }
                }
            }
            lemma_subtree_all(*self, fuel, inv, good);
        }
    }

    /// From a state that emits a grid no step leads on.
    pub proof fn lemma_emits_leaf(&self)
        requires
            self.inv(),
            self.emits() is Some,
        ensures
            self.steps().len() == 0,
    {
        self.lemma_best(self.choices().len() as int);
    }

    /// The best cell is an empty one, if there is one.
    proof fn lemma_best(&self, n: int)
        requires
            0 <= n <= self.choices().len(),
        ensures
            match self.best_upto(n) {
                None => forall|w: int| 0 <= w < n ==> !self.open(w),
                Some(p) => 0 <= p < n && self.open(p),
            },
            self.best_upto(n) is None <==> self.open_count(n) == 0,
        decreases n,
    {
        if n > 0 {
            self.lemma_best(n - 1);
        }
    }

    /// What holds of a step that is one of the steps of the state.
    proof fn lemma_step_facts(&self, step: (usize, u8)) -> (w: int)
        requires
            self.inv(),
            self.steps().contains(step),
        ensures
            0 <= w < self.choices().len(),
            self.best_upto(self.choices().len() as int) == Some(w),
            self.open(w),
            step.0 == self.choices()[w].0,
            step.0 < 81,
            1 <= step.1 <= 9,
            has_digit(self.grid().candidate_mask(step.0 as int), step.1 as int),
            self.grid().grid()[step.0 as int] == 0,
            self.open_count(self.choices().len() as int) >= 1,
            self.chosen() < self.choices().len(),
    {
        let n = self.choices().len() as int;
        self.lemma_best(n);
        let w = self.best_upto(n).unwrap();
        let idx = self.choices()[w].0;
        let live = self.live(w);
        let k = choose|k: int| 0 <= k < self.steps().len() && self.steps()[k] == step;
        let bits = bit_indices(live as u128);
        lemma_bit_indices(live as u128);
        let d = bits[k];
        assert(has_bit(live as u128, d));
        lemma_digit_bound(live, d as u16);
        lemma_digit_masks(self.choices()[w].1, self.grid().candidate_mask(idx as int), 0xffff, d as u16, 0);
        lemma_digit_four(self.choices()[w].1, self.grid().candidate_mask(idx as int), d as u16);
        self.grid().lemma_candidates(idx as int, d as int);
        w
    }

    /// Filling one cell leaves one empty cell less.
    proof fn lemma_open_count_step(&self, after: &Self, w: int, n: int)
        requires
            self.choices() == after.choices(),
            0 <= w < self.choices().len(),
            0 <= n <= self.choices().len(),
            self.open(w),
            !after.open(w),
            forall|v: int| 0 <= v < self.choices().len() && v != w ==> after.open(v) == self.open(v),
        ensures
            after.open_count(n) + (if w < n { 1nat } else { 0nat }) == self.open_count(n),
        decreases n,
    {
        if n > 0 {
            self.lemma_open_count_step(after, w, n - 1);
            if n - 1 != w {
                assert(after.open(n - 1) == self.open(n - 1));
            }
        }
    }

    /// What a step does to the state.
    proof fn lemma_after(&self, step: (usize, u8))
        requires
            self.inv(),
            self.steps().contains(step),
        ensures
            self.with_step(step.0, step.1).inv(),
            self.with_step(step.0, step.1).open_count(self.choices().len() as int) + 1 == self.open_count(
                self.choices().len() as int,
            ),
    {
        let w = self.lemma_step_facts(step);
        let after = self.with_step(step.0, step.1);
        self.sudoku.lemma_with_digit(step.0 as int, step.1);
        assert forall|v: int| 0 <= v < self.choices().len() && v != w implies after.open(v) == self.open(v) by {
            if v < w {
                assert(self.wildcards@[v].0 < self.wildcards@[w].0);
            } else {
                assert(self.wildcards@[w].0 < self.wildcards@[v].0);
            }
        }
        self.lemma_open_count_step(&after, w, self.choices().len() as int);
    }
}

impl DepthFirstTraversable for TemplateGeneratorState {
    type Step = (usize, u8);

    type Output = RegionMaskedSudoku;

    open spec fn wf(&self) -> bool {
        self.inv()
    }

    open spec fn steps(&self) -> Seq<(usize, u8)> {
        match self.best_upto(self.choices().len() as int) {
            None => Seq::empty(),
            Some(w) => Self::steps_for(self.choices()[w].0, self.live(w)),
        }
    }

    open spec fn after(&self, step: (usize, u8)) -> Self {
        self.with_step(step.0, step.1)
    }

    open spec fn pruned(&self) -> bool {
        self.is_blocked()
    }

    open spec fn emits(&self) -> Option<RegionMaskedSudoku> {
        if !self.is_blocked() && self.chosen() == self.choices().len() {
            Some(self.grid())
        } else {
            None
        }
    }

    open spec fn height(&self) -> nat {
        self.open_count(self.choices().len() as int)
    }

    proof fn lemma_step(&self, i: int) {
        let step = self.steps()[i];
        assert(self.steps().contains(step));
        self.lemma_after(step);
    }

    fn next_steps(&mut self) -> (r: Vec<(usize, u8)>) {
        match self.best_branch_digit() {
            Some((idx, live)) => Self::steps_of(idx, live),
            None => Vec::new(),
        }
    }

    fn apply_step(&mut self, step: &(usize, u8)) {
        proof {
            self.lemma_step_facts(*step);
        }
        self.sudoku.place(step.0, step.1);
        self.placement_count += 1;
    }

    fn revert_step(&mut self, step: &(usize, u8), before: Ghost<Self>) {
        proof {
            before@.lemma_step_facts(*step);
            before@.sudoku.lemma_with_digit(step.0 as int, step.1);
        }
        let ghost placed = self.sudoku;
        self.sudoku.unplace(step.0, step.1);
        self.placement_count -= 1;
        proof {
            before@.sudoku.lemma_unplaced(&self.sudoku, step.0 as int, step.1);
        }
    }

    fn should_prune(&mut self) -> (r: bool) {
        self.blocked
    }

    fn output(&mut self) -> (r: Option<RegionMaskedSudoku>) {
        if !self.blocked && self.placement_count == self.wildcards.len() {
            Some(self.sudoku)
        } else {
            None
        }
    }
}

/// A digit of two masks at once is a digit of each.
proof fn lemma_digit_four(a: u16, b: u16, d: u16)
    by (bit_vector)
    requires
        d < 16,
    ensures
        (a & b) & (1u16 << d) != 0 <==> a & (1u16 << d) != 0 && b & (1u16 << d) != 0,
{
}

} // verus!
