// The solver protocol and the metamove solver on small puzzles: pulls apply
// one turn each, terminate, and construction fails on unusable
// configurations.

use std::rc::Rc;

use twisty_solver::metamove_solver::{MetaMoveSolver, MetaMoveSolverOpts};
use twisty_solver::puzzle::TwistyPuzzle;
use twisty_solver::solver::{ScrambleSolver, Solver};

// Four pieces in a ring; one turn rotates them forward, the other back.
fn ring_puzzle() -> TwistyPuzzle {
    let solved = vec![0, 1, 2, 3];
    let forward = vec![3, 0, 1, 2];
    let backward = vec![1, 2, 3, 0];
    TwistyPuzzle::new(solved, vec![forward, backward]).unwrap()
}

#[test]
fn solver_terminates_on_a_small_puzzle() {
    // a fixed three-turn scramble of a two-turn, four-piece puzzle is
    // solved within a bounded number of pulls, and the solver then
    // signals exhaustion instead of looping
    let puzzle = Rc::new(ring_puzzle());
    let factory: Solver<MetaMoveSolver> =
        Solver::new(Rc::clone(&puzzle), MetaMoveSolverOpts::default());
    let scrambled =
        puzzle.get_derived_state_from_turn_sequence(&puzzle.get_initial_state(), &vec![0, 0, 0]);
    let mut solver = factory.solve(scrambled.clone()).unwrap();

    let mut yielded: Vec<usize> = Vec::new();
    let mut pulls: usize = 0;
    loop {
        assert!(pulls < 50, "the solver must terminate within a bounded number of pulls");
        match solver.next() {
            Some(turn) => {
                assert!(turn < puzzle.get_num_turns());
                yielded.push(turn);
            }
            None => break,
        }
        pulls += 1;
    }

    // the scramble is three forward turns of a four-cycle, so the solver
    // finishes the cycle with one more forward turn
    assert_eq!(yielded, vec![0]);
    assert_eq!(*solver.get_state(), puzzle.get_initial_state());

    // replaying the yielded turns against the scrambled state reproduces
    // the state the solver ended on
    let replayed = puzzle.get_derived_state_from_turn_sequence(&scrambled, &yielded);
    assert_eq!(replayed, *solver.get_state());
}

#[test]
fn exhausted_solver_stays_exhausted() {
    let puzzle = Rc::new(ring_puzzle());
    let factory: Solver<MetaMoveSolver> =
        Solver::new(Rc::clone(&puzzle), MetaMoveSolverOpts::default());
    let mut solver = factory.solve(puzzle.get_initial_state()).unwrap();
    // the initial state is already solved: nothing improves it
    assert!(solver.next().is_none());
    assert!(solver.next().is_none());
    assert_eq!(*solver.get_state(), puzzle.get_initial_state());
}

#[test]
fn construction_fails_without_usable_metamoves() {
    // a puzzle whose only turn is the identity leaves nothing to discover
    let puzzle = Rc::new(TwistyPuzzle::new(vec![0, 1, 2], vec![vec![0, 1, 2]]).unwrap());
    let factory: Solver<MetaMoveSolver> =
        Solver::new(Rc::clone(&puzzle), MetaMoveSolverOpts::default());
    assert!(factory.solve(puzzle.get_initial_state()).is_none());
}

#[test]
fn construction_fails_on_absurd_options() {
    let puzzle = Rc::new(ring_puzzle());
    let mut opts = MetaMoveSolverOpts::default();
    opts.search_min_depth = 6;
    opts.search_max_depth = 2;
    assert!(MetaMoveSolver::new(Rc::clone(&puzzle), puzzle.get_initial_state(), opts).is_none());
}

#[test]
fn buffered_turns_replay_a_multi_turn_choice() {
    // scramble two turns back, so the best phase-one combination needs two
    // forward turns: the first pull applies and yields the first, the
    // second pull drains the buffer without re-searching
    let puzzle = Rc::new(ring_puzzle());
    let factory: Solver<MetaMoveSolver> =
        Solver::new(Rc::clone(&puzzle), MetaMoveSolverOpts::default());
    let scrambled =
        puzzle.get_derived_state_from_turn_sequence(&puzzle.get_initial_state(), &vec![1, 1]);
    let mut solver = factory.solve(scrambled).unwrap();
    let first = solver.next();
    let second = solver.next();
    assert!(first.is_some());
    assert!(second.is_some());
    assert_eq!(*solver.get_state(), puzzle.get_initial_state());
    assert!(solver.next().is_none());
}
