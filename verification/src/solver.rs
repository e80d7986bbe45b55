//! The scramble-solver protocol: a solver is a stateful pull-based producer
//! of turns. It exposes the current puzzle state at any time; each pull
//! mutates that state by exactly one turn and yields that turn's index, and
//! a pull that decides no turn signals exhaustion.

use std::rc::Rc;

use vstd::prelude::*;

use crate::permutation::apply_map;
use crate::puzzle::{PuzzleState, TwistyPuzzle};

verus! {

/// A pull-based solver. Construction performs all precomputation and fails
/// only on a configuration the solver cannot work with; each later pull
/// either applies one in-range turn to the exposed state and returns its
/// index, or returns nothing, leaves the state alone and signals exhaustion.
/// Exhaustion with an unsolved state is a possible outcome: callers check
/// the state, they do not assume a terminal pull means solved.
pub trait ScrambleSolver: Sized {
    type Opts: Clone;

    /// The puzzle this solver works on.
    spec fn spec_puzzle(&self) -> TwistyPuzzle;

    /// The current arrangement of the pieces.
    spec fn spec_state(&self) -> Seq<usize>;

    /// The solver's internal well-formedness.
    spec fn wf(&self) -> bool;

    fn new(puzzle: Rc<TwistyPuzzle>, initial_state: PuzzleState, opts: Self::Opts) -> (r: Option<
        Self,
    >)
        requires
            (*puzzle).wf(),
            initial_state@.len() == (*puzzle).spec_num_pieces(),
        ensures
            match r {
                Some(s) => s.wf() && s.spec_puzzle() == *puzzle && s.spec_state()
                    == initial_state@,
                None => true,
            },
    ;

    fn get_state(&self) -> (r: &PuzzleState)
        requires
            self.wf(),
        ensures
            r@ == self.spec_state(),
    ;

    fn next(&mut self) -> (r: Option<usize>)
        requires
            old(self).wf(),
        ensures
            final(self).wf(),
            final(self).spec_puzzle() == old(self).spec_puzzle(),
            match r {
                Some(t) => t < old(self).spec_puzzle().spec_num_turns() && final(self).spec_state()
                    == apply_map(
                    old(self).spec_state(),
                    old(self).spec_puzzle().spec_turns()[t as int].face_map@,
                ),
                None => final(self).spec_state() == old(self).spec_state(),
            },
    ;
}

/// A factory that pairs a shared puzzle with solver options, so that many
/// scrambles of one puzzle can be solved with one configuration.
pub struct Solver<T: ScrambleSolver> {
    pub opts: T::Opts,
    pub puzzle: Rc<TwistyPuzzle>,
}

impl<T: ScrambleSolver> Solver<T> {
    pub open spec fn spec_puzzle(&self) -> TwistyPuzzle {
        *self.puzzle
    }

    pub open spec fn wf(&self) -> bool {
        (*self.puzzle).wf()
    }

    pub fn new(puzzle: Rc<TwistyPuzzle>, opts: T::Opts) -> (r: Self)
        requires
            (*puzzle).wf(),
        ensures
            r.wf(),
            r.spec_puzzle() == *puzzle,
    {
        Self { opts, puzzle }
    }

    /// Builds a solver for one scrambled state: the solver starts on that
    /// state, on this factory's puzzle. Construction fails only as the
    /// solver's own precomputation does.
    pub fn solve(&self, initial_state: PuzzleState) -> (r: Option<T>)
        requires
            self.wf(),
            initial_state@.len() == self.spec_puzzle().spec_num_pieces(),
        ensures
            match r {
                Some(s) => s.wf() && s.spec_puzzle() == self.spec_puzzle() && s.spec_state()
                    == initial_state@,
                None => true,
            },
    {
        T::new(Rc::clone(&self.puzzle), initial_state, self.opts.clone())
    }
}

} // verus!
