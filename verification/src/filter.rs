//! The tests that a grid has to pass to stay in a pipeline.

use vstd::prelude::*;
use crate::cell_list::{ListedCellSpec, parse_cells, read_cells};
use crate::fast_solver::FastBruteForceSolver;
use crate::logic::BasicSolver;
use crate::minlex::{is_minlex, minlex};
use crate::pipeline::RegionMaskedSudoku;
use crate::sudoku::{Sudoku, is_completion, is_solution};

verus! {

/// A test of a grid.
pub enum Filter {
    /// The basic rules place at most `n` digits.
    AtMostNBasicPlacements { n: usize },
    /// The basic rules solve the grid once the digits of `elims` are taken
    /// from their cells: each entry is a row and a column counted from 0, and
    /// a digit.
    SolvesWithBasicsAfterElims { elims: Vec<((usize, usize), u8)> },
    /// The grid has a solution.
    HasAnySolution,
    /// The grid has one solution and no other.
    HasUniqueSolution,
    /// No grid that the symmetries of Sudoku make the same was seen before.
    NonEquivalent { seen_minlexes: Vec<Sudoku> },
}

/// The entries that a list of cells with digits stands for: one for each
/// digit of each cell, in their order.
pub open spec fn elims_of(cells: Seq<ListedCellSpec>) -> Seq<((usize, usize), u8)>
    decreases cells.len(),
{
    if cells.len() == 0 {
        Seq::empty()
    } else {
        elims_of(cells.drop_last()) + Seq::new(
            cells.last().digits.len(),
            |k: int| ((cells.last().row as usize, cells.last().col as usize), cells.last().digits[k]),
        )
    }
}

/// Whether the solution has none of the digits of `elims` at its cell.
pub open spec fn avoids(s: Seq<u8>, elims: Seq<((usize, usize), u8)>) -> bool {
    forall|j: int| 0 <= j < elims.len() ==> s[9 * (#[trigger] elims[j]).0.0 + elims[j].0.1] != elims[j].1
}

/// Whether the grid has one solution that has none of the digits of
/// `elims` at their cells.
pub open spec fn solved_after(grid: Seq<u8>, elims: Seq<((usize, usize), u8)>) -> bool {
    exists|s: Seq<u8>|
        #[trigger] is_completion(grid, s) && avoids(s, elims) && forall|t: Seq<u8>|
            is_completion(grid, t) && avoids(t, elims) ==> t == s
}

/// Whether a state has more than `n` digits placed beyond those of a grid
/// that lacks `lacking` digits.
pub open spec fn beyond(state: BasicSolver, n: int, lacking: int) -> bool {
    n < lacking && 81 - state.count() < lacking - n
}

/// Whether the basic rules, applied to a state in `fuel` steps at most,
/// come to a halt without a step that leaves more than `n` digits placed
/// beyond those of a grid that lacks `lacking` digits.
pub open spec fn few_in(state: BasicSolver, n: int, lacking: int, fuel: nat) -> bool
    decreases fuel,
{
    if fuel == 0 {
        true
    } else if state.stepped().1 == Some(true) {
        !beyond(state.stepped().0, n, lacking) && few_in(state.stepped().0, n, lacking, (fuel - 1) as nat)
    } else {
        true
    }
}

/// Whether the basic rules place at most `n` digits on a grid that lacks
/// `lacking` digits before they come to a halt.
pub open spec fn few_placed(grid: Seq<u8>, n: int, lacking: int) -> bool {
    few_in(BasicSolver::starting(grid), n, lacking, (BasicSolver::starting(grid).weight() + 1) as nat)
}

/// Whether the basic rules solve a grid once the digits of `elims` are
/// taken from their cells.
pub open spec fn solved_by_basics(grid: Seq<u8>, elims: Seq<((usize, usize), u8)>) -> bool {
    BasicSolver::starting(grid).cut(elims).settled().count() == 81
}

/// Whether `after` is `before` with the least grid of `g` noted unless it
/// was there, and `fresh` says that it was not.
pub open spec fn noted(g: Seq<u8>, before: Seq<Sudoku>, after: Seq<Sudoku>, fresh: bool) -> bool {
    exists|m: Sudoku|
        #![trigger is_minlex(g, m@)]
        is_minlex(g, m@) && (fresh <==> forall|i: int| 0 <= i < before.len() ==> (#[trigger] before[i])@ != m@)
            && after == (if fresh {
            before.push(m)
        } else {
            before
        })
}

/// Whether the entries are cells of the board and digits.
pub open spec fn elims_ok(elims: Seq<((usize, usize), u8)>) -> bool {
    forall|j: int| 0 <= j < elims.len() ==> (#[trigger] elims[j]).0.0 < 9 && elims[j].0.1 < 9 && elims[j].1 < 16
}

impl Filter {
    /// The lists of the filter are in order: the entries are cells of the
    /// board, and no grid is noted twice.
    pub open spec fn wf(&self) -> bool {
        match self {
            Filter::SolvesWithBasicsAfterElims { elims } => elims_ok(elims@),
            Filter::NonEquivalent { seen_minlexes } => forall|i: int, j: int|
                0 <= i < j < seen_minlexes@.len() ==> (#[trigger] seen_minlexes@[i])@ != (#[trigger] seen_minlexes@[j])@,
            _ => true,
        }
    }

    /// The entries of a filter that takes digits from cells.
    pub open spec fn listed(&self) -> Seq<((usize, usize), u8)> {
        match self {
            Filter::SolvesWithBasicsAfterElims { elims } => elims@,
            _ => Seq::empty(),
        }
    }

    /// The grids that a filter for grids that were not seen before has
    /// noted.
    pub open spec fn seen(&self) -> Seq<Sudoku> {
        match self {
            Filter::NonEquivalent { seen_minlexes } => seen_minlexes@,
            _ => Seq::empty(),
        }
    }

    /// Whether `r` is what the test says of a grid, and `after` the filter
    /// once it has said so.
    pub open spec fn said(&self, grid: RegionMaskedSudoku, r: bool, after: &Filter) -> bool {
        match self {
            Filter::AtMostNBasicPlacements { n } => *after == *self && r == few_placed(
                grid.grid(),
                *n as int,
                grid.lacking(9) as int,
            ),
            Filter::SolvesWithBasicsAfterElims { elims } => *after == *self && r == solved_by_basics(grid.grid(), elims@)
                && (r ==> solved_after(grid.grid(), elims@)),
            Filter::HasAnySolution => *after == *self && (r <==> exists|s: Seq<u8>| is_completion(grid.grid(), s)),
            Filter::HasUniqueSolution => *after == *self && (r <==> (exists|s: Seq<u8>| is_completion(grid.grid(), s)) && (
            forall|s: Seq<u8>, t: Seq<u8>| is_completion(grid.grid(), s) && is_completion(grid.grid(), t) ==> s == t)),
            Filter::NonEquivalent { seen_minlexes } => (*after is NonEquivalent) && noted(
                grid.grid(),
                seen_minlexes@,
                after.seen(),
                r,
            ),
        }
    }

    /// Whether the grid passes the test. A filter for grids that were not
    /// seen before notes the grid.
    pub fn matches(&mut self, sudoku: &RegionMaskedSudoku) -> (r: bool)
        requires
            old(self).wf(),
            sudoku.wf(),
        ensures
            old(self).said(*sudoku, r, final(self)),
            final(self).wf(),
            !(*old(self) is NonEquivalent) ==> *final(self) == *old(self),
            *old(self) matches Filter::AtMostNBasicPlacements { n } ==> (n >= sudoku.lacking(9) ==> r),
            *old(self) is SolvesWithBasicsAfterElims ==> (r ==> solved_after(sudoku.grid(), old(self).listed())),
            *old(self) is HasAnySolution ==> (r <==> exists|s: Seq<u8>| is_completion(sudoku.grid(), s)),
            *old(self) is HasUniqueSolution ==> (r <==> (exists|s: Seq<u8>| is_completion(sudoku.grid(), s)) && (
            forall|s: Seq<u8>, t: Seq<u8>| is_completion(sudoku.grid(), s) && is_completion(sudoku.grid(), t) ==> s == t)),
            *old(self) is NonEquivalent ==> (*final(self) is NonEquivalent) && noted(
                sudoku.grid(),
                old(self).seen(),
                final(self).seen(),
                r,
            ),
    {
        match self {
            Filter::AtMostNBasicPlacements { n } => at_most_n_basic_placements(*n, sudoku),
            Filter::SolvesWithBasicsAfterElims { elims } => solves_with_basics_after_elims(elims, sudoku),
            Filter::HasAnySolution => FastBruteForceSolver::has_solution(sudoku.sudoku()),
            Filter::HasUniqueSolution => FastBruteForceSolver::has_unique_solution(sudoku.sudoku()),
            Filter::NonEquivalent { seen_minlexes } => non_equivalent(sudoku.sudoku(), seen_minlexes),
        }
    }

    /// The test for at most `n` basic placements.
    pub fn at_most_n_basic_placements(n: usize) -> (r: Self)
        ensures
            r == (Filter::AtMostNBasicPlacements { n }),
            r.wf(),
    {
        Filter::AtMostNBasicPlacements { n }
    }

    /// The test for a solution by the basic rules after the eliminations
    /// that the text lists as `56789r4c1,4r6c4`; nothing where the text is
    /// anything else.
    pub fn solves_with_basics_after_elims(elim_str: &str) -> (r: Option<Self>)
        ensures
            match (r, parse_cells(elim_str@)) {
                (Some(filter), Some(cells)) => filter.wf() && (filter is SolvesWithBasicsAfterElims) && filter.listed()
                    == elims_of(cells),
                (None, None) => true,
                _ => false,
            },
    {
        match read_cells(elim_str) {
            None => None,
            Some(listed) => {
                let ghost cells = Seq::new(listed@.len(), |i: int| listed@[i]@);
                let mut elims: Vec<((usize, usize), u8)> = Vec::new();
                let mut i: usize = 0;
                while i < listed.len()
                    invariant
                        i <= listed@.len(),
                        cells == Seq::new(listed@.len(), |i: int| listed@[i]@),
                        elims@ == elims_of(cells.subrange(0, i as int)),
                        elims_ok(elims@),
                        forall|j: int|
                            0 <= j < listed@.len() ==> (#[trigger] listed@[j]).row < 9 && listed@[j].col < 9 && forall|
                                k: int,
                            | 0 <= k < listed@[j].digits@.len() ==> 1 <= #[trigger] listed@[j].digits@[k] <= 9,
                    decreases listed@.len() - i,
                {
                    let cell = &listed[i];
                    let ghost before = elims@;
                    let mut k: usize = 0;
                    while k < cell.digits.len()
                        invariant
                            k <= cell.digits@.len(),
                            cell.row < 9,
                            cell.col < 9,
                            forall|j: int| 0 <= j < cell.digits@.len() ==> 1 <= #[trigger] cell.digits@[j] <= 9,
                            elims_ok(elims@),
                            elims@ == before + Seq::new(k as nat, |j: int| ((cell.row, cell.col), cell.digits@[j])),
                        decreases cell.digits@.len() - k,
                    {
                        let ghost so_far = elims@;
                        elims.push(((cell.row, cell.col), cell.digits[k]));
                        proof {
                            assert(elims@ =~= before + Seq::new(
                                (k + 1) as nat,
                                |j: int| ((cell.row, cell.col), cell.digits@[j]),
                            ));
                            assert forall|j: int| 0 <= j < elims@.len() implies (#[trigger] elims@[j]).0.0 < 9
                                && elims@[j].0.1 < 9 && elims@[j].1 < 16 by {
                                if j < so_far.len() {
                                    assert(elims@[j] == so_far[j]);
                                }
                            }
                        }
                        k += 1;
                    }
                    proof {
                        let upto = cells.subrange(0, i + 1);
                        assert(upto.drop_last() =~= cells.subrange(0, i as int));
                        assert(upto.last() == cell@);
                        assert(Seq::new(cell.digits@.len(), |j: int| ((cell.row, cell.col), cell.digits@[j])) =~= Seq::new(
                            upto.last().digits.len(),
                            |k: int| ((upto.last().row as usize, upto.last().col as usize), upto.last().digits[k]),
                        ));
                    }
                    i += 1;
                }
                proof {
                    assert(cells.subrange(0, i as int) =~= cells);
                }
                Some(Filter::SolvesWithBasicsAfterElims { elims })
            },
        }
    }

    /// The test for grids that were not seen before, with none seen.
    pub fn non_equivalent() -> (r: Self)
        ensures
            r.wf(),
            r matches Filter::NonEquivalent { seen_minlexes } && seen_minlexes@.len() == 0,
    {
        Filter::NonEquivalent { seen_minlexes: Vec::new() }
    }
}

/// Whether the basic rules place at most `n` digits beyond those of the
/// grid before they come to a halt. They do where the grid lacks no more
/// than `n` digits.
pub fn at_most_n_basic_placements(n: usize, sudoku: &RegionMaskedSudoku) -> (r: bool)
    requires
        sudoku.wf(),
    ensures
        r == few_placed(sudoku.grid(), n as int, sudoku.lacking(9) as int),
        n >= sudoku.lacking(9) ==> r,
{
    let missing_count = sudoku.empty_cells();
    let mut solver = BasicSolver::for_region_masked_sudoku(sudoku);
    let ghost mut fuel: nat = (solver.weight() + 1) as nat;
    proof {
        solver.lemma_weight_bounds();
    }
    loop
        invariant
            fuel >= solver.weight() + 1,
            few_placed(sudoku.grid(), n as int, missing_count as int) == few_in(
                solver,
                n as int,
                missing_count as int,
                fuel,
            ),
            solver.wf(),
            missing_count == sudoku.lacking(9),
        decreases solver.weight(),
    {
        proof {
            solver.lemma_weight_bounds();
        }
        match solver.step_basics() {
            Some(true) => {
                proof {
                    solver.lemma_weight_bounds();
                    if !beyond(solver, n as int, missing_count as int) {
                        fuel = (fuel - 1) as nat;
                    }
                }
                if n < missing_count && solver.empty_cells() < missing_count - n {
                    return false;
                }
            },
            _ => {
                return true;
            },
        }
    }
}

/// Whether the basic rules solve the grid once the digits of `elims` are
/// taken from their cells. Where they do, the grid has one solution that
/// has none of those digits at their cells.
pub fn solves_with_basics_after_elims(elims: &Vec<((usize, usize), u8)>, sudoku: &RegionMaskedSudoku) -> (r: bool)
    requires
        sudoku.wf(),
        elims_ok(elims@),
    ensures
        r == solved_by_basics(sudoku.grid(), elims@),
        r ==> solved_after(sudoku.grid(), elims@),
{
    let mut solver = BasicSolver::for_region_masked_sudoku(sudoku);
    let ghost fresh = solver;
    solver.eliminate_candidates(elims);
    let ghost cut = solver;
    solver.solve_basics();
    let solved = solver.is_solved();
    proof {

        if solved {
            let s = solver.grid();
            // what the cut state admits is what completes the grid and avoids the eliminations
            assert forall|t: Seq<u8>| is_solution(t) implies (#[trigger] cut.admits(t) <==> is_completion(sudoku.grid(), t)
                && avoids(t, elims@)) by {
                cut.lemma_admits_after_elims(&fresh, sudoku.grid(), elims@, t);
            }
            assert(cut.admits(s));
            assert(is_completion(sudoku.grid(), s) && avoids(s, elims@));
            assert forall|t: Seq<u8>| is_completion(sudoku.grid(), t) && avoids(t, elims@) implies t == s by {
                assert(cut.admits(t));
                assert(solver.admits(t));
                solver.lemma_solved_only(t);
            }
        }
    }
    solved
}

/// Whether no grid that the symmetries of Sudoku make the same as this one
/// was seen before. The least of those grids is noted where it was not.
pub fn non_equivalent(sudoku: &Sudoku, seen_minlexes: &mut Vec<Sudoku>) -> (r: bool)
    requires
        forall|i: int, j: int|
            0 <= i < j < old(seen_minlexes)@.len() ==> (#[trigger] old(seen_minlexes)@[i])@ != (#[trigger] old(seen_minlexes)@[j])@,
    ensures
        forall|i: int, j: int|
            0 <= i < j < final(seen_minlexes)@.len() ==> (#[trigger] final(seen_minlexes)@[i])@ != (#[trigger] final(seen_minlexes)@[j])@,
        noted(sudoku@, old(seen_minlexes)@, final(seen_minlexes)@, r),
{
    let least = minlex(sudoku);
    let mut i: usize = 0;
    assert(is_minlex(sudoku@, least@));
    while i < seen_minlexes.len()
        invariant
            i <= seen_minlexes@.len(),
            *seen_minlexes == *old(seen_minlexes),
            is_minlex(sudoku@, least@),
            forall|a: int, b: int|
                0 <= a < b < seen_minlexes@.len() ==> (#[trigger] seen_minlexes@[a])@ != (#[trigger] seen_minlexes@[b])@,
            forall|j: int| 0 <= j < i ==> (#[trigger] seen_minlexes@[j])@ != least@,
        decreases seen_minlexes@.len() - i,
    {
        if seen_minlexes[i].same_as(&least) {
            proof {
                assert(is_minlex(sudoku@, least@));
            }
            return false;
        }
        i += 1;
    }
    seen_minlexes.push(least);
    proof {
        assert(is_minlex(sudoku@, least@));
        assert forall|a: int, b: int| 0 <= a < b < seen_minlexes@.len() implies (#[trigger] seen_minlexes@[a])@
            != (#[trigger] seen_minlexes@[b])@ by {
            if b < seen_minlexes@.len() - 1 {
                assert(seen_minlexes@[a] == old(seen_minlexes)@[a]);
                assert(seen_minlexes@[b] == old(seen_minlexes)@[b]);
            } else {
                assert(seen_minlexes@[a] == old(seen_minlexes)@[a]);
            }
        }
    }
    true
}

} // verus!
