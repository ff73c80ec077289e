//! The grids that fit a template and have a solution.

use vstd::prelude::*;
use crate::dfs_with_progress::{DepthFirstSearcherWithProgress, DepthFirstTraversable, subtree};
use crate::fast_solver::FastBruteForceSolver;
use crate::generate::TemplateGeneratorState;
use crate::progress::{digits_le, digits_ok};
use crate::sudoku::{Sudoku, is_completion};
use crate::template::Template;

verus! {

/// Whether a grid has a solution.
pub open spec fn solvable(grid: Seq<u8>) -> bool {
    exists|s: Seq<u8>| is_completion(grid, s)
}

/// A state of the search for the grids of a template that looks no
/// further where the grid has no solution.
pub struct SolvableState {
    inner: TemplateGeneratorState,
}

impl SolvableState {
    /// The state of the search for the grids of the template.
    pub closed spec fn state(&self) -> TemplateGeneratorState {
        self.inner
    }
}

impl DepthFirstTraversable for SolvableState {
    type Step = (usize, u8);

    type Output = Sudoku;

    open spec fn wf(&self) -> bool {
        self.state().wf()
    }

    open spec fn steps(&self) -> Seq<(usize, u8)> {
        self.state().steps()
    }

    closed spec fn after(&self, step: (usize, u8)) -> Self {
        SolvableState { inner: self.inner.after(step) }
    }

    open spec fn pruned(&self) -> bool {
        self.state().pruned() || !solvable(self.state().grid().grid())
    }

    open spec fn emits(&self) -> Option<Sudoku> {
        if self.state().emits() is Some && solvable(self.state().grid().grid()) {
            Some(self.state().grid().board())
        } else {
            None
        }
    }

    open spec fn height(&self) -> nat {
        self.state().height()
    }

    proof fn lemma_step(&self, i: int) {
        self.inner.lemma_step(i);
    }

    fn next_steps(&mut self) -> (r: Vec<(usize, u8)>) {
        self.inner.next_steps()
    }

    fn apply_step(&mut self, step: &(usize, u8)) {
        self.inner.apply_step(step);
    }

    fn revert_step(&mut self, step: &(usize, u8), before: Ghost<Self>) {
        self.inner.revert_step(step, Ghost(before@.inner));
    }

    fn should_prune(&mut self) -> (r: bool) {
        if self.inner.should_prune() {
            true
        } else {
            !FastBruteForceSolver::has_solution(self.inner.board().sudoku())
        }
    }

    fn output(&mut self) -> (r: Option<Sudoku>) {
        match self.inner.output() {
            Some(found) => {
                if FastBruteForceSolver::has_solution(found.sudoku()) {
                    Some(*found.sudoku())
                } else {
                    None
                }
            },
            None => None,
        }
    }
}

/// A structure capable of iterating over all partial Sudoku grids fitting
/// a particular template that have a solution.
pub struct Generator {
    search: DepthFirstSearcherWithProgress<SolvableState>,
}

impl Generator {
    /// The search is in order.
    pub closed spec fn wf(&self) -> bool {
        self.search.wf()
    }

    /// The grids that are still to come, in their order.
    pub closed spec fn remaining(&self) -> Seq<Sudoku> {
        self.search.remaining()
    }

    /// How much of the search is done: see
    /// [`DepthFirstSearcherWithProgress::digits`]. With `open`, the state
    /// at which the search is does not count as done.
    pub closed spec fn places(&self, open: bool) -> Seq<(usize, usize)> {
        self.search.digits(open)
    }

    /// The state from which the search starts.
    pub closed spec fn start(&self) -> SolvableState {
        self.search.start()
    }

    /// The generator of the grids of a template: those of the search that
    /// starts with the givens placed and goes no deeper where the grid has
    /// no solution.
    pub fn for_template(template: &Template) -> (r: Self)
        requires
            template.wf(),
        ensures
            r.wf(),
            r.start().state().fits(template.cells()),
            r.remaining() == subtree(r.start(), r.start().height() + 1),
    {
        let state = SolvableState { inner: TemplateGeneratorState::for_template(template) };
        Generator { search: DepthFirstSearcherWithProgress::new(state) }
    }

    /// The next grid, if there is one. The progress does not fall, and it
    /// is full once no grid is left.
    pub fn next(&mut self) -> (r: Option<Sudoku>)
        requires
            old(self).wf(),
        ensures
            final(self).wf(),
            match r {
                Some(found) => old(self).remaining().len() > 0 && found == old(self).remaining()[0]
                    && final(self).remaining() == old(self).remaining().drop_first() && solvable(found@),
                None => old(self).remaining().len() == 0 && final(self).remaining().len() == 0,
            },
            digits_le(old(self).places(false), final(self).places(false)),
            r is Some ==> digits_le(old(self).places(false), final(self).places(true)),
            r is None ==> final(self).places(false) == seq![(1usize, 1usize)],
    {
        let r = self.search.next();
        proof {
            self.search.current().state().grid().lemma_board();
        }
        r
    }

    /// How much of the search is done: see [`Self::places`].
    pub fn progress(&self, open: bool) -> (r: Vec<(usize, usize)>)
        requires
            self.wf(),
        ensures
            r@ == self.places(open),
            r@.len() >= 1,
            digits_ok(r@),
    {
        self.search.progress(open)
    }
}

} // verus!
