//! Depth-first search over a state that is changed in place, with a record
//! of how much of the search is done.

use vstd::prelude::*;
use crate::progress::{digits_le, digits_ok, lemma_digits_le_prefix, lemma_digits_le_refl, lemma_digits_le_trans};

verus! {

/// A state that a depth-first search changes in place: from each state a
/// list of steps leads on, each step can be applied and taken back, a state
/// may cut the search short, and a state may have something to emit.
pub trait DepthFirstTraversable: Sized {
    type Step;

    type Output;

    /// What holds of every state that the search reaches.
    spec fn wf(&self) -> bool;

    /// The steps that lead on from this state, in the order in which the
    /// search takes them.
    spec fn steps(&self) -> Seq<Self::Step>;

    /// The state that a step leads to.
    spec fn after(&self, step: Self::Step) -> Self;

    /// Whether the search goes no deeper from this state.
    spec fn pruned(&self) -> bool;

    /// What this state emits, if anything.
    spec fn emits(&self) -> Option<Self::Output>;

    /// A bound on how many steps can follow one another from this state.
    spec fn height(&self) -> nat;

    /// A step leads to a state that is in order and less high.
    proof fn lemma_step(&self, i: int)
        requires
            self.wf(),
            !self.pruned(),
            0 <= i < self.steps().len(),
        ensures
            self.after(self.steps()[i]).wf(),
            self.after(self.steps()[i]).height() < self.height(),
    ;

    /// The steps that lead on from this state.
    fn next_steps(&mut self) -> (r: Vec<Self::Step>)
        requires
            old(self).wf(),
            !old(self).pruned(),
        ensures
            *final(self) == *old(self),
            r@ == old(self).steps(),
    ;

    /// Goes on by one step.
    fn apply_step(&mut self, step: &Self::Step)
        requires
            old(self).wf(),
            !old(self).pruned(),
            old(self).steps().contains(*step),
        ensures
            *final(self) == old(self).after(*step),
    ;

    /// Takes back the step that was applied last, which led from `before`
    /// to this state.
    fn revert_step(&mut self, step: &Self::Step, before: Ghost<Self>)
        requires
            before@.wf(),
            !before@.pruned(),
            before@.steps().contains(*step),
            *old(self) == before@.after(*step),
        ensures
            *final(self) == before@,
    ;

    /// Whether the search goes no deeper from this state.
    fn should_prune(&mut self) -> (r: bool)
        requires
            old(self).wf(),
        ensures
            *final(self) == *old(self),
            r == old(self).pruned(),
    ;

    /// What this state emits, if anything.
    fn output(&mut self) -> (r: Option<Self::Output>)
        requires
            old(self).wf(),
        ensures
            *final(self) == *old(self),
            r == old(self).emits(),
    ;
}

/// What a state emits, as a list of at most one.
pub open spec fn emitted<T: DepthFirstTraversable>(x: T) -> Seq<T::Output> {
    match x.emits() {
        Some(o) => seq![o],
        None => Seq::empty(),
    }
}

/// What the search emits from state `x` on, going at most `fuel` states
/// deep: what `x` emits, then what the search emits from each state that a
/// step leads to, unless `x` cuts the search short.
pub open spec fn subtree<T: DepthFirstTraversable>(x: T, fuel: nat) -> Seq<T::Output>
    decreases fuel, 0nat,
{
    if fuel == 0 {
        Seq::empty()
    } else if x.pruned() {
        emitted(x)
    } else {
        emitted(x) + forest(x, 0, (fuel - 1) as nat)
    }
}

/// What the search emits from the states that the steps of `x` from the
/// `j`-th on lead to, going at most `fuel` states deep from each.
pub open spec fn forest<T: DepthFirstTraversable>(x: T, j: int, fuel: nat) -> Seq<T::Output>
    decreases fuel, x.steps().len() - j,
{
    if j < 0 || j >= x.steps().len() {
        Seq::empty()
    } else {
        subtree(x.after(x.steps()[j]), fuel) + forest(x, j + 1, fuel)
    }
}

/// What holds of every state that the steps lead to, from a state of which
/// it holds, holds of what the search emits: `inv` holds of `x` and of each
/// state that a step leads to from a state of which it holds, and `good`
/// holds of what a state emits of which `inv` holds.
pub proof fn lemma_subtree_all<T: DepthFirstTraversable>(
    x: T,
    fuel: nat,
    inv: spec_fn(T) -> bool,
    good: spec_fn(T::Output) -> bool,
)
    requires
        inv(x),
        forall|s: T, i: int| inv(s) && !s.pruned() && 0 <= i < s.steps().len() ==> inv(#[trigger] s.after(s.steps()[i])),
        forall|s: T| #[trigger] inv(s) && s.emits() is Some ==> good(s.emits().unwrap()),
    ensures
        forall|k: int| 0 <= k < subtree(x, fuel).len() ==> good(#[trigger] subtree(x, fuel)[k]),
    decreases fuel, 0nat, 0nat,
{
    if fuel > 0 {
        let own = emitted(x);
        if x.emits() is Some {
            assert(own[0] == x.emits().unwrap());
        }
        if !x.pruned() {
            lemma_forest_all(x, 0, (fuel - 1) as nat, inv, good);
            let rest = forest(x, 0, (fuel - 1) as nat);
            assert forall|k: int| 0 <= k < subtree(x, fuel).len() implies good(#[trigger] subtree(x, fuel)[k]) by {
                if k >= own.len() {
                    assert(subtree(x, fuel)[k] == rest[k - own.len()]);
                } else {
                    assert(subtree(x, fuel)[k] == own[k]);
                }
            }
        }
    }
}

/// See [`lemma_subtree_all`].
proof fn lemma_forest_all<T: DepthFirstTraversable>(
    x: T,
    j: int,
    fuel: nat,
    inv: spec_fn(T) -> bool,
    good: spec_fn(T::Output) -> bool,
)
    requires
        inv(x),
        !x.pruned(),
        0 <= j,
        forall|s: T, i: int| inv(s) && !s.pruned() && 0 <= i < s.steps().len() ==> inv(#[trigger] s.after(s.steps()[i])),
        forall|s: T| #[trigger] inv(s) && s.emits() is Some ==> good(s.emits().unwrap()),
    ensures
        forall|k: int| 0 <= k < forest(x, j, fuel).len() ==> good(#[trigger] forest(x, j, fuel)[k]),
    decreases fuel, 1nat, x.steps().len() - j,
{
    if j < x.steps().len() {
        let next = x.after(x.steps()[j]);
        assert(inv(next));
        lemma_subtree_all(next, fuel, inv, good);
        lemma_forest_all(x, j + 1, fuel, inv, good);
        let (first, rest) = (subtree(next, fuel), forest(x, j + 1, fuel));
        assert forall|k: int| 0 <= k < forest(x, j, fuel).len() implies good(#[trigger] forest(x, j, fuel)[k]) by {
            if k >= first.len() {
                assert(forest(x, j, fuel)[k] == rest[k - first.len()]);
            } else {
                assert(forest(x, j, fuel)[k] == first[k]);
            }
        }
    }
}

/// What the search emits from a state that a step leads to, it emits
/// from the state that the step leads from.
pub proof fn lemma_subtree_has<T: DepthFirstTraversable>(x: T, fuel: nat, i: int, o: T::Output)
    requires
        fuel > 0,
        !x.pruned(),
        0 <= i < x.steps().len(),
        subtree(x.after(x.steps()[i]), (fuel - 1) as nat).contains(o),
    ensures
        subtree(x, fuel).contains(o),
{
    lemma_forest_has(x, 0, i, (fuel - 1) as nat, o);
    let rest = forest(x, 0, (fuel - 1) as nat);
    let k = choose|k: int| 0 <= k < rest.len() && rest[k] == o;
    assert(subtree(x, fuel)[emitted(x).len() + k] == o);
}

/// See [`lemma_subtree_has`].
proof fn lemma_forest_has<T: DepthFirstTraversable>(x: T, j: int, i: int, fuel: nat, o: T::Output)
    requires
        0 <= j <= i < x.steps().len(),
        subtree(x.after(x.steps()[i]), fuel).contains(o),
    ensures
        forest(x, j, fuel).contains(o),
    decreases i - j,
{
    let first = subtree(x.after(x.steps()[j]), fuel);
    if j == i {
        let k = choose|k: int| 0 <= k < first.len() && first[k] == o;
        assert(forest(x, j, fuel)[k] == o);
    } else {
        lemma_forest_has(x, j + 1, i, fuel, o);
        let rest = forest(x, j + 1, fuel);
        let k = choose|k: int| 0 <= k < rest.len() && rest[k] == o;
        assert(forest(x, j, fuel)[first.len() + k] == o);
    }
}

/// How many states the search visits from state `x` on.
pub open spec fn visits<T: DepthFirstTraversable>(x: T, fuel: nat) -> nat
    decreases fuel, 0nat,
{
    if fuel == 0 {
        0
    } else if x.pruned() {
        1
    } else {
        1 + forest_visits(x, 0, (fuel - 1) as nat)
    }
}

/// How many states the search visits from the states that the steps of
/// `x` from the `j`-th on lead to.
pub open spec fn forest_visits<T: DepthFirstTraversable>(x: T, j: int, fuel: nat) -> nat
    decreases fuel, x.steps().len() - j,
{
    if j < 0 || j >= x.steps().len() {
        0
    } else {
        visits(x.after(x.steps()[j]), fuel) + forest_visits(x, j + 1, fuel)
    }
}

/// One level of the search: the steps that lead on from a state, and how
/// many of them were taken.
pub struct Frame<T: DepthFirstTraversable> {
    steps: Vec<T::Step>,
    taken: usize,
    node: Ghost<T>,
    fuel: Ghost<nat>,
}

impl<T: DepthFirstTraversable> Frame<T> {
    /// The steps are those of the state that the level belongs to, which
    /// is in order and does not cut the search short.
    pub closed spec fn wf(&self) -> bool {
        &&& self.steps@ == self.node@.steps()
        &&& self.node@.wf()
        &&& !self.node@.pruned()
        &&& self.steps@.len() >= 1
        &&& self.taken <= self.steps@.len()
        &&& self.fuel@ > self.node@.height()
    }

    /// How many steps lead on from the state.
    pub closed spec fn width(&self) -> nat {
        self.steps@.len()
    }

    /// How deep the search may still go from the state of the level.
    pub closed spec fn depth(&self) -> nat {
        self.fuel@
    }

    /// How many of the steps were taken.
    pub closed spec fn done(&self) -> nat {
        self.taken as nat
    }

    /// The state that the step taken last leads to.
    pub closed spec fn child(&self) -> T {
        self.node@.after(self.steps@[self.taken - 1])
    }

    /// What the search still emits from the steps of this level that were
    /// not taken.
    pub closed spec fn rest(&self) -> Seq<T::Output> {
        forest(self.node@, self.taken as int, (self.fuel@ - 1) as nat)
    }

    /// How many states the search still visits from the steps of this
    /// level that were not taken.
    pub closed spec fn rest_visits(&self) -> nat {
        forest_visits(self.node@, self.taken as int, (self.fuel@ - 1) as nat)
    }

    /// The place of the level in the progress: how many of its steps are
    /// done, the step that was taken last left out where `open` is set, and
    /// how many steps it has.
    pub closed spec fn digit(&self, open: bool) -> (usize, usize) {
        (
            if open && self.taken >= 1 {
                (self.taken - 1) as usize
            } else {
                self.taken
            },
            self.steps@.len() as usize,
        )
    }

    /// Whether `upper` is the level of the state that the step taken last
    /// at this level leads to.
    pub closed spec fn leads_to(&self, upper: &Self) -> bool {
        &&& self.taken >= 1
        &&& upper.node@ == self.child()
        &&& upper.fuel@ == self.fuel@ - 1
    }
}

/// The places of levels that are not the innermost: the step that was
/// taken last is not done at any of them.
pub open spec fn inner_digits<T: DepthFirstTraversable>(frames: Seq<Frame<T>>) -> Seq<(usize, usize)> {
    Seq::new(frames.len(), |i: int| frames[i].digit(true))
}

/// What the search still emits from the steps of the levels that were not
/// taken, the innermost level first.
pub open spec fn pending<T: DepthFirstTraversable>(frames: Seq<Frame<T>>) -> Seq<T::Output>
    decreases frames.len(),
{
    if frames.len() == 0 {
        Seq::empty()
    } else {
        frames.last().rest() + pending(frames.drop_last())
    }
}

/// How many states the search still visits from the steps of the levels
/// that were not taken.
pub open spec fn pending_visits<T: DepthFirstTraversable>(frames: Seq<Frame<T>>) -> nat
    decreases frames.len(),
{
    if frames.len() == 0 {
        0
    } else {
        frames.last().rest_visits() + pending_visits(frames.drop_last())
    }
}

/// A search that goes through the states depth first, the steps of each
/// state in their order, and emits what the states emit as it reaches them.
pub struct DepthFirstSearcherWithProgress<T: DepthFirstTraversable> {
    state: T,
    levels: Vec<Frame<T>>,
    started: bool,
    root: Ghost<T>,
}

impl<T: DepthFirstTraversable> DepthFirstSearcherWithProgress<T> {
    /// The state at which the search started.
    pub closed spec fn start(&self) -> T {
        self.root@
    }

    /// The state at which the search is.
    pub closed spec fn current(&self) -> T {
        self.state
    }

    /// The levels of the search, the outermost first.
    pub closed spec fn frames(&self) -> Seq<Frame<T>> {
        self.levels@
    }

    /// Whether the search has looked at its first state.
    pub closed spec fn begun(&self) -> bool {
        self.started
    }

    /// The levels are in order, each the level of the state that the level
    /// below has reached, and the state is the one that the innermost
    /// level has reached.
    pub closed spec fn wf(&self) -> bool {
        let frames = self.levels@;
        let m = frames.len() as int;
        &&& self.root@.wf()
        &&& forall|i: int| 0 <= i < m ==> (#[trigger] frames[i]).wf()
        &&& forall|i: int| 0 <= i < m - 1 ==> (#[trigger] frames[i]).leads_to(&frames[i + 1])
        &&& m > 0 ==> self.started && frames[0].node@ == self.root@ && frames[0].fuel@ == self.root@.height() + 1
        &&& m == 0 ==> self.state == self.root@
        &&& m > 0 ==> self.state == (if frames[m - 1].taken == 0 {
            frames[m - 1].node@
        } else {
            frames[m - 1].child()
        })
    }

    /// Whether the search has looked at the state at which it is and has
    /// opened no level for it.
    pub closed spec fn at_leaf(&self) -> bool {
        self.started && (self.levels@.len() == 0 || self.levels@.last().taken >= 1)
    }

    /// What the search still emits, in the order in which it emits it.
    pub closed spec fn remaining(&self) -> Seq<T::Output> {
        if !self.started {
            subtree(self.root@, self.root@.height() + 1)
        } else {
            pending(self.levels@)
        }
    }

    /// How many states the search still visits.
    pub closed spec fn left(&self) -> nat {
        if !self.started {
            visits(self.root@, self.root@.height() + 1)
        } else {
            pending_visits(self.levels@)
        }
    }

    /// A new search with the given state as the root
    pub fn new(start_state: T) -> (r: Self)
        requires
            start_state.wf(),
        ensures
            r.wf(),
            r.start() == start_state,
            r.current() == start_state,
            !r.begun(),
            r.remaining() == subtree(start_state, start_state.height() + 1),
    {
        Self { state: start_state, levels: Vec::new(), started: false, root: Ghost(start_state) }
    }

    /// How much of the search is done, as the places of a number between 0
    /// and 1: one place for the whole search and one for each level, each
    /// with how many of the steps of the level are done and how many steps
    /// it has. At the innermost level every step that was taken counts as
    /// done, unless `open` is set: then the last one does not, as at the
    /// levels further out.
    #[verifier::opaque]
    pub closed spec fn digits(&self, open: bool) -> Seq<(usize, usize)> {
        let frames = self.levels@;
        if frames.len() == 0 {
            seq![(if self.started && !open { 1usize } else { 0usize }, 1usize)]
        } else {
            (seq![(0usize, 1usize)] + inner_digits(frames.drop_last())) + seq![frames.last().digit(open)]
        }
    }

    /// How much of the search is done: see [`Self::digits`].
    pub fn progress(&self, open: bool) -> (r: Vec<(usize, usize)>)
        requires
            self.wf(),
        ensures
            r@ == self.digits(open),
            r@.len() >= 1,
            digits_ok(r@),
    {
        let mut out: Vec<(usize, usize)> = Vec::new();
        let m = self.levels.len();
        proof {
            reveal(DepthFirstSearcherWithProgress::digits);
        }
        if m == 0 {
            out.push((if self.started && !open { 1 } else { 0 }, 1));
            proof {
                assert(out@ =~= self.digits(open));
            }
            return out;
        }
        out.push((0, 1));
        let mut i: usize = 0;
        while i < m
            invariant
                i <= m,
                m == self.levels@.len(),
                m > 0,
                self.wf(),
                out@.len() == i + 1,
                out@[0] == (0usize, 1usize),
                forall|k: int| 0 <= k < i && k < m - 1 ==> #[trigger] out@[k + 1] == self.levels@[k].digit(true),
                i == m ==> out@[m as int] == self.levels@[m - 1].digit(open),
                digits_ok(out@),
            decreases m - i,
        {
            let frame = &self.levels[i];
            let ghost before = out@;
            proof {
                assert(self.levels@[i as int].wf());
                if i < m - 1 {
                    assert(self.levels@[i as int].leads_to(&self.levels@[i + 1]));
                }
            }
            let done = if (i + 1 < m || open) && frame.taken >= 1 {
                frame.taken - 1
            } else {
                frame.taken
            };
            out.push((done, frame.steps.len()));
            proof {
                assert forall|k: int| 0 <= k < i + 1 && k < m - 1 implies #[trigger] out@[k + 1] == self.levels@[k].digit(
                    true,
                ) by {
                    if k < i {
                        assert(out@[k + 1] == before[k + 1]);
                    }
                }
                assert forall|k: int| 0 <= k < out@.len() implies (#[trigger] out@[k]).0 <= out@[k].1 && out@[k].1
                    >= 1 by {
                    if k < i + 1 {
                        assert(out@[k] == before[k]);
                    }
                }
            }
            i += 1;
        }
        proof {
            let frames = self.levels@;
            let expected = (seq![(0usize, 1usize)] + inner_digits(frames.drop_last())) + seq![frames.last().digit(open)];
            assert(out@.len() == expected.len());
            assert forall|k: int| 0 <= k < out@.len() implies out@[k] == expected[k] by {
                if 0 < k && k < m {
                    assert(out@[(k - 1) + 1] == frames[k - 1].digit(true));
                    assert(frames.drop_last()[k - 1] == frames[k - 1]);
                }
            }
            assert(out@ =~= expected);
        }
        out
    }

    /// The state at which the search is.
    pub fn state(&self) -> (r: &T)
        ensures
            *r == self.current(),
    {
        &self.state
    }

    /// Take a single step onwards in the depth-first search: back out of the
    /// levels whose steps are all taken, take the next step of the innermost
    /// level that is left, and open a level for the state that is reached
    /// unless it cuts the search short or no step leads on from it. Returns
    /// whether a state was reached.
    fn step(&mut self) -> (alive: bool)
        requires
            old(self).wf(),
        ensures
            final(self).wf(),
            final(self).start() == old(self).start(),
            alive ==> final(self).current().wf() && old(self).remaining() == emitted(final(self).current()) + final(self).remaining()
                && old(self).left() == final(self).left() + 1,
            !alive ==> old(self).remaining() == Seq::<T::Output>::empty() && final(self).remaining() == Seq::<
                T::Output,
            >::empty(),
            digits_le(old(self).digits(false), final(self).digits(false)),
            alive ==> digits_le(old(self).digits(false), final(self).digits(true)),
            !alive ==> final(self).digits(false) == seq![(1usize, 1usize)],
            alive && (final(self).current().pruned() || final(self).current().steps().len() == 0) 
                ==> final(self).at_leaf(),
    {
        let ghost mut fuel: nat = (self.root@.height() + 1) as nat;
        if self.levels.len() == 0 {
            if self.started {
                proof {
                    reveal(DepthFirstSearcherWithProgress::digits);
                    lemma_digits_le_refl(self.digits(false));
                }
                return false;
            }
            self.started = true;
            proof {
                assert(subtree(self.state, fuel) + pending(self.levels@) =~= subtree(self.state, fuel));
                reveal(DepthFirstSearcherWithProgress::digits);
                assert(self.digits(true) == old(self).digits(false));
                lemma_digits_le_refl(self.digits(true));
            }
        } else {
            let ghost before = *self;
            if !self.unwind() {
                return false;
            }
            let ghost unwound = *self;
            let Ghost(f) = self.advance();
            proof {
                fuel = f;
            }
        }
        let ghost reached = *self;
        self.arrive(Ghost(fuel));
        proof {
            lemma_digits_le_trans(old(self).digits(false), reached.digits(true), self.digits(true));
            lemma_digits_le_trans(old(self).digits(false), reached.digits(true), self.digits(false));
        }
        true
    }

    /// Backs out of the levels whose steps are all taken. Returns whether a
    /// level is left.
    fn unwind(&mut self) -> (alive: bool)
        requires
            old(self).wf(),
            old(self).frames().len() > 0,
        ensures
            final(self).wf(),
            final(self).begun(),
            final(self).start() == old(self).start(),
            final(self).remaining() == old(self).remaining(),
            final(self).left() == old(self).left(),
            alive ==> final(self).frames().len() > 0 && final(self).frames().last().done() < final(self).frames().last().width(),
            !alive ==> final(self).frames().len() == 0 && final(self).remaining() == Seq::<T::Output>::empty(),
            digits_le(old(self).digits(false), final(self).digits(false)),
            !alive ==> final(self).digits(false) == seq![(1usize, 1usize)],
    {
        proof {
            lemma_digits_le_refl(self.digits(false));
        }
        while self.levels.len() > 0 && self.levels[self.levels.len() - 1].taken == self.levels[self.levels.len()
            - 1].steps.len()
            invariant
                self.wf(),
                self.started,
                self.root == old(self).root,
                self.remaining() == old(self).remaining(),
                self.left() == old(self).left(),
                self.levels@.len() > 0,
                digits_le(old(self).digits(false), self.digits(false)),
            decreases self.levels@.len(),
        {
            let ghost before = self.levels@;
            let ghost at_top = *self;
            let frame = self.levels.pop().unwrap();
            proof {
                assert(before.drop_last() =~= self.levels@);
                assert(frame == before.last());
                assert(frame.wf());
                assert(frame.steps@.contains(frame.steps@[frame.taken - 1]));
                lemma_forest_done(frame.node@, (frame.fuel@ - 1) as nat);
                if self.levels@.len() > 0 {
                    assert(before[before.len() - 2].leads_to(&before[before.len() - 1]));
                }
            }
            self.state.revert_step(&frame.steps[frame.taken - 1], Ghost(frame.node@));
            proof {
                assert forall|i: int| 0 <= i < self.levels@.len() - 1 implies (#[trigger] self.levels@[i]).leads_to(
                    &self.levels@[i + 1],
                ) by {
                    assert(before[i].leads_to(&before[i + 1]));
                }
                assert(frame.rest() =~= Seq::<T::Output>::empty());
                assert(pending(before) =~= pending(self.levels@));
                assert(pending_visits(before) == pending_visits(self.levels@));
                at_top.lemma_popped(self);
                lemma_digits_le_trans(old(self).digits(false), at_top.digits(false), self.digits(false));
            }
            if self.levels.len() == 0 {
                proof {
                    assert(pending(self.levels@) =~= Seq::<T::Output>::empty());
                    reveal(DepthFirstSearcherWithProgress::digits);
                }
                return false;
            }
        }
        true
    }

    /// The progress does not fall when the innermost level, whose steps
    /// are all done, is left.
    proof fn lemma_popped(&self, after: &Self)
        requires
            self.wf(),
            self.levels@.len() > 0,
            self.levels@.last().taken == self.levels@.last().steps@.len(),
            after.levels@ == self.levels@.drop_last(),
            after.started,
        ensures
            digits_le(self.digits(false), after.digits(false)),
    {
        reveal(DepthFirstSearcherWithProgress::digits);
        let frames = self.levels@;
        let top = frames.last();
        assert(top.wf());
        let last = seq![top.digit(false)];
        if frames.len() == 1 {
            assert(inner_digits(frames.drop_last()) =~= Seq::<(usize, usize)>::empty());
            let a = (seq![(0usize, 1usize)] + inner_digits(frames.drop_last())) + last;
            assert(a[0] == (0usize, 1usize));
        } else {
            let below = frames.drop_last();
            let parent = below.last();
            assert(frames[frames.len() - 2].leads_to(&frames[frames.len() - 1]));
            assert(parent.wf());
            let prefix = seq![(0usize, 1usize)] + inner_digits(below.drop_last());
            let a = seq![parent.digit(true)] + last;
            let b = seq![parent.digit(false)];
            assert(inner_digits(below) =~= inner_digits(below.drop_last()) + seq![parent.digit(true)]);
            assert(self.digits(false) =~= prefix + a);
            assert(after.digits(false) =~= prefix + b);
            assert(digits_le(a, b));
            lemma_digits_le_prefix(prefix, a, b);
        }
    }

    /// Takes the next step of the innermost level, after taking back the
    /// step that it took last.
    fn advance(&mut self) -> (fuel: Ghost<nat>)
        requires
            old(self).wf(),
            old(self).begun(),
            old(self).frames().len() > 0,
            old(self).frames().last().done() < old(self).frames().last().width(),
        ensures
            final(self).wf(),
            final(self).begun(),
            final(self).start() == old(self).start(),
            final(self).frames().len() == old(self).frames().len(),
            final(self).current().wf(),
            fuel@ > final(self).current().height(),
            final(self).frames().last().done() >= 1,
            final(self).current() == final(self).frames().last().child(),
            final(self).frames().last().depth() == fuel@ + 1,
            old(self).remaining() == subtree(final(self).current(), fuel@) + final(self).remaining(),
            old(self).left() == visits(final(self).current(), fuel@) + final(self).left(),
            final(self).digits(true) == old(self).digits(false),
    {
        let ghost before = self.levels@;
        let mut frame = self.levels.pop().unwrap();
        let ghost fuel: nat = (frame.fuel@ - 1) as nat;
        proof {
            assert(before.drop_last() =~= self.levels@);
            assert(frame == before.last());
            assert(frame.wf());
        }
        if frame.taken > 0 {
            proof {
                assert(frame.steps@.contains(frame.steps@[frame.taken - 1]));
            }
            self.state.revert_step(&frame.steps[frame.taken - 1], Ghost(frame.node@));
        }
        proof {
            assert(frame.steps@.contains(frame.steps@[frame.taken as int]));
            T::lemma_step(&frame.node@, frame.taken as int);
        }
        self.state.apply_step(&frame.steps[frame.taken]);
        let ghost old_frame = frame;
        assert(frame.taken < frame.steps@.len());
        assert(frame.steps@.len() == frame.steps.len());
        frame.taken = frame.taken + 1;
        self.levels.push(frame);
        proof {
            assert(self.levels@.drop_last() =~= before.drop_last());
            assert(self.levels@.last() == frame);
            assert forall|i: int| 0 <= i < self.levels@.len() implies (#[trigger] self.levels@[i]).wf() by {
                if i < self.levels@.len() - 1 {
                    assert(self.levels@[i] == before[i]);
                    assert(before[i].wf());
                }
            }
            assert forall|i: int| 0 <= i < self.levels@.len() - 1 implies (#[trigger] self.levels@[i]).leads_to(
                &self.levels@[i + 1],
            ) by {
                assert(before[i].leads_to(&before[i + 1]));
                assert(self.levels@[i] == before[i]);
            }
            // what the level still holds: the state reached, then the steps after it
            assert(old_frame.rest() == subtree(self.state, fuel) + frame.rest());
            assert(old_frame.rest_visits() == visits(self.state, fuel) + frame.rest_visits());
            assert(pending(before) == old_frame.rest() + pending(before.drop_last()));
            assert(pending(self.levels@) == frame.rest() + pending(before.drop_last()));
            assert(pending_visits(before) == old_frame.rest_visits() + pending_visits(before.drop_last()));
            assert(pending_visits(self.levels@) == frame.rest_visits() + pending_visits(before.drop_last()));
            assert((subtree(self.state, fuel) + frame.rest()) + pending(before.drop_last()) =~= subtree(
                self.state,
                fuel,
            ) + (frame.rest() + pending(before.drop_last())));
            reveal(DepthFirstSearcherWithProgress::digits);
            assert(frame.digit(true) == old_frame.digit(false));
            assert(self.digits(true) =~= old(self).digits(false));
        }
        Ghost(fuel)
    }

    /// Looks at the state that was reached: opens a level for it unless it
    /// cuts the search short or no step leads on from it.
    fn arrive(&mut self, fuel: Ghost<nat>)
        requires
            old(self).wf(),
            old(self).begun(),
            old(self).current().wf(),
            fuel@ > old(self).current().height(),
            old(self).frames().len() == 0 ==> fuel@ == old(self).start().height() + 1,
            old(self).frames().len() > 0
                ==> old(self).frames().last().done() >= 1
                    && old(self).current() == old(self).frames().last().child()
                    && old(self).frames().last().depth() == fuel@ + 1,
        ensures
            final(self).wf(),
            final(self).begun(),
            final(self).start() == old(self).start(),
            final(self).current() == old(self).current(),
            subtree(old(self).current(), fuel@) + old(self).remaining() == emitted(old(self).current()) + final(self).remaining(),
            visits(old(self).current(), fuel@) + old(self).left() == 1 + final(self).left(),
            digits_le(old(self).digits(true), final(self).digits(true)),
            digits_le(old(self).digits(true), final(self).digits(false)),
            old(self).current().pruned() || old(self).current().steps().len() == 0 ==> final(self).at_leaf(),
    {
        let ghost reached = self.state;
        let ghost fuel = fuel@;
        proof {
            self.lemma_closed();
            lemma_digits_le_refl(self.digits(true));
        }
        // Check if we should prune at this state and don't go deeper if so
        if self.state.should_prune() {
            proof {
                assert(subtree(reached, fuel) == emitted(reached));
            }
            return ;
        }
        // Deepen the search by one level if possible

        let next_steps = self.state.next_steps();
        if next_steps.len() > 0 {
            let ghost before = self.levels@;
            self.levels.push(Frame { steps: next_steps, taken: 0, node: Ghost(reached), fuel: Ghost(fuel) });
            proof {
                assert(self.levels@.drop_last() =~= before);
                assert forall|i: int| 0 <= i < self.levels@.len() implies (#[trigger] self.levels@[i]).wf() by {
                    if i < self.levels@.len() - 1 {
                        assert(self.levels@[i] == before[i]);
                        assert(before[i].wf());
                    }
                }
                assert forall|i: int| 0 <= i < self.levels@.len() - 1 implies (#[trigger] self.levels@[i]).leads_to(
                    &self.levels@[i + 1],
                ) by {
                    if i < self.levels@.len() - 2 {
                        assert(before[i].leads_to(&before[i + 1]));
                        assert(self.levels@[i] == before[i]);
                        assert(self.levels@[i + 1] == before[i + 1]);
                    } else {
                        assert(self.levels@[i] == before[i]);
                    }
                }
                assert(subtree(reached, fuel) == emitted(reached) + self.levels@.last().rest());
                assert(pending(self.levels@) == self.levels@.last().rest() + pending(before));
                assert((emitted(reached) + self.levels@.last().rest()) + pending(before) =~= emitted(reached) + (
                self.levels@.last().rest() + pending(before)));
                old(self).lemma_deepened(self);
            }
        } else {
            proof {
                assert(forest(reached, 0, (fuel - 1) as nat) =~= Seq::<T::Output>::empty());
                assert(subtree(reached, fuel) =~= emitted(reached));
            }
        }
    }

    /// The progress with every step of the innermost level counted as done
    /// is no less than without the last of them.
    proof fn lemma_closed(&self)
        requires
            self.wf(),
            self.started,
        ensures
            digits_le(self.digits(true), self.digits(false)),
    {
        reveal(DepthFirstSearcherWithProgress::digits);
        let frames = self.levels@;
        if frames.len() > 0 {
            let prefix = seq![(0usize, 1usize)] + inner_digits(frames.drop_last());
            let (a, b) = (seq![frames.last().digit(true)], seq![frames.last().digit(false)]);
            assert(frames.last().wf());
            assert(a.drop_first() =~= Seq::<(usize, usize)>::empty());
            assert(digits_le(a.drop_first(), b.drop_first()));
            assert(digits_le(a, b));
            lemma_digits_le_prefix(prefix, a, b);
        }
    }

    /// The progress does not fall when a level is opened.
    proof fn lemma_deepened(&self, after: &Self)
        requires
            self.wf(),
            self.started,
            after.started,
            after.levels@.len() == self.levels@.len() + 1,
            after.levels@.drop_last() == self.levels@,
            after.levels@.last().taken == 0,
            self.levels@.len() > 0 ==> self.levels@.last().taken >= 1,
        ensures
            digits_le(self.digits(true), after.digits(true)),
            digits_le(self.digits(true), after.digits(false)),
    {
        reveal(DepthFirstSearcherWithProgress::digits);
        let frames = self.levels@;
        let top = after.levels@.last();
        assert(top.digit(true) == top.digit(false));
        if frames.len() == 0 {
            assert(inner_digits(after.levels@.drop_last()) =~= Seq::<(usize, usize)>::empty());
            let a = seq![(0usize, 1usize)];
            let b = (seq![(0usize, 1usize)] + inner_digits(after.levels@.drop_last())) + seq![top.digit(true)];
            assert(self.digits(true) =~= a);
            assert(a.drop_first() =~= Seq::<(usize, usize)>::empty());
            assert(a[0] == (0usize, 1usize) && b[0] == (0usize, 1usize));
            assert(digits_le(a.drop_first(), b.drop_first()));
            assert(digits_le(a, b));
        } else {
            let below = frames.drop_last();
            let parent = frames.last();
            let prefix = seq![(0usize, 1usize)] + inner_digits(below);
            let a = seq![parent.digit(true)];
            let b = seq![parent.digit(true)] + seq![top.digit(true)];
            assert(inner_digits(frames) =~= inner_digits(below) + seq![parent.digit(true)]);
            assert(self.digits(true) =~= prefix + a);
            assert(after.digits(true) =~= prefix + b);
            assert(a.drop_first() =~= Seq::<(usize, usize)>::empty());
            assert(digits_le(a.drop_first(), b.drop_first()));
            assert(digits_le(a, b));
            lemma_digits_le_prefix(prefix, a, b);
        }
    }

    /// At a state from which the search goes no deeper, the progress with
    /// the state counted as done is more than without, whatever places
    /// follow.
    pub proof fn lemma_leaf_closed(&self, tail: Seq<(usize, usize)>)
        requires
            self.wf(),
            self.at_leaf(),
        ensures
            digits_le(self.digits(true) + tail, self.digits(false)),
    {
        reveal(DepthFirstSearcherWithProgress::digits);
        let frames = self.levels@;
        if frames.len() == 0 {
            let a = seq![(0usize, 1usize)] + tail;
            let b = seq![(1usize, 1usize)];
            assert(a[0] == (0usize, 1usize) && b[0] == (1usize, 1usize));
            assert(digits_le(a, b));
        } else {
            let prefix = seq![(0usize, 1usize)] + inner_digits(frames.drop_last());
            let a = seq![frames.last().digit(true)] + tail;
            let b = seq![frames.last().digit(false)];
            assert(frames.last().wf());
            assert(a[0] == frames.last().digit(true) && b[0] == frames.last().digit(false));
            assert(digits_le(a, b));
            lemma_digits_le_prefix(prefix, a, b);
            assert(self.digits(true) + tail =~= prefix + a);
        }
    }

    /// A search that has not looked at its first state has nothing done.
    pub proof fn lemma_not_begun(&self, open: bool)
        requires
            self.wf(),
            !self.begun(),
        ensures
            self.digits(open) == seq![(0usize, 1usize)],
    {
        reveal(DepthFirstSearcherWithProgress::digits);
    }

    /// The next thing that the search emits, if it emits anything more.
    pub fn next(&mut self) -> (r: Option<T::Output>)
        requires
            old(self).wf(),
        ensures
            final(self).wf(),
            final(self).start() == old(self).start(),
            match r {
                Some(output) => old(self).remaining().len() > 0
                    && output == old(self).remaining()[0]
                    && final(self).remaining() == old(self).remaining().drop_first()
                    && final(self).current().emits() == Some(output)
                    && final(self).current().wf(),
                None => old(self).remaining().len() == 0 && final(self).remaining().len() == 0,
            },
            digits_le(old(self).digits(false), final(self).digits(false)),
            r is Some ==> digits_le(old(self).digits(false), final(self).digits(true)),
            r is None ==> final(self).digits(false) == seq![(1usize, 1usize)],
            r is Some && (final(self).current().pruned() || final(self).current().steps().len() == 0) 
                ==> final(self).at_leaf(),
    {
        proof {
            lemma_digits_le_refl(self.digits(false));
        }
        loop
            invariant
                self.wf(),
                self.root == old(self).root,
                self.remaining() == old(self).remaining(),
                digits_le(old(self).digits(false), self.digits(false)),
            decreases self.left(),
        {
            let ghost before = *self;
            let alive = self.step();
            proof {
                lemma_digits_le_trans(old(self).digits(false), before.digits(false), self.digits(false));
                if alive {
                    lemma_digits_le_trans(old(self).digits(false), before.digits(false), self.digits(true));
                }
            }
            if !alive {
                return None;
            }
            let ghost stepped = *self;
            let found = self.state.output();
            proof {
                assert(self.levels == stepped.levels && self.started == stepped.started);
                reveal(DepthFirstSearcherWithProgress::digits);
                assert(self.digits(false) == stepped.digits(false));
                assert(self.digits(true) == stepped.digits(true));
            }
            if let Some(output) = found {
                proof {
                    assert(before.remaining() =~= seq![output] + self.remaining());
                    assert(before.remaining().drop_first() =~= self.remaining());
                }
                return Some(output);
            }
            proof {
                assert(before.remaining() =~= self.remaining());
            }
        }
    }
}

/// Nothing is left once every step is taken.
proof fn lemma_forest_done<T: DepthFirstTraversable>(x: T, fuel: nat)
    ensures
        forest(x, x.steps().len() as int, fuel) == Seq::<T::Output>::empty(),
        forest_visits(x, x.steps().len() as int, fuel) == 0,
{
}

} // verus!
