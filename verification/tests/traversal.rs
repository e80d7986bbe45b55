// The combination traversal engine: visitation order, determinism, and the
// abort-the-whole-walk semantics of Break.

use std::rc::Rc;

use twisty_solver::metamove::MetaMove;
use twisty_solver::metamove_solver::find_best_metamove;
use twisty_solver::pipeline::{single_turn_metamoves, CollectVisitor};
use twisty_solver::puzzle::TwistyPuzzle;
use twisty_solver::traverse::traverse_combinations;

fn cyclic_puzzle() -> TwistyPuzzle {
    let solved = vec![0, 1, 2, 3, 4];
    let forward = vec![4, 0, 1, 2, 3];
    let backward = vec![1, 2, 3, 4, 0];
    TwistyPuzzle::new(solved, vec![forward, backward]).unwrap()
}

fn collect_turn_lists(puzzle: &TwistyPuzzle, depth: usize) -> Vec<Vec<usize>> {
    let pool = single_turn_metamoves(puzzle);
    let seed = MetaMove::empty(puzzle);
    let mut visitor = CollectVisitor {
        puzzle,
        max_affected: puzzle.get_num_pieces(),
        found: Vec::new(),
    };
    traverse_combinations(puzzle, &pool, depth, &seed, &mut visitor);
    visitor.found.into_iter().map(|mm| mm.turns).collect()
}

#[test]
fn traversal_visits_depth_first_in_pool_order() {
    let puzzle = cyclic_puzzle();
    let lists = collect_turn_lists(&puzzle, 2);
    let expected: Vec<Vec<usize>> = vec![
        vec![0],
        vec![0, 0],
        vec![0, 1],
        vec![1],
        vec![1, 0],
        vec![1, 1],
    ];
    assert_eq!(lists, expected);
}

#[test]
fn traversal_depth_zero_and_empty_pool_visit_nothing() {
    let puzzle = cyclic_puzzle();
    assert_eq!(collect_turn_lists(&puzzle, 0).len(), 0);

    let seed = MetaMove::empty(&puzzle);
    let mut visitor = CollectVisitor {
        puzzle: &puzzle,
        max_affected: puzzle.get_num_pieces(),
        found: Vec::new(),
    };
    let empty_pool: Vec<MetaMove> = Vec::new();
    traverse_combinations(&puzzle, &empty_pool, 3, &seed, &mut visitor);
    assert_eq!(visitor.found.len(), 0);
}

#[test]
fn traversal_is_deterministic() {
    let puzzle = cyclic_puzzle();
    let first = collect_turn_lists(&puzzle, 3);
    let second = collect_turn_lists(&puzzle, 3);
    assert_eq!(first, second);
}

#[test]
fn break_aborts_the_whole_traversal() {
    // the scrambled state is one forward turn ahead of solved, so four more
    // forward turns solve it, and so does a single backward turn; the
    // depth-first walk meets the four forward turns first and Break keeps
    // the shorter backward solution from ever being visited
    let puzzle = Rc::new(cyclic_puzzle());
    let state = puzzle.get_derived_state_turn_index(&puzzle.get_initial_state(), 0);
    let singles = single_turn_metamoves(&puzzle);
    let best = find_best_metamove(Rc::clone(&puzzle), &state, &singles, 4);
    assert_eq!(best.turns, vec![0, 0, 0, 0]);

    // at depth one the backward turn is the only solving combination
    let best_shallow = find_best_metamove(Rc::clone(&puzzle), &state, &singles, 1);
    assert_eq!(best_shallow.turns, vec![1]);
}

#[test]
fn find_best_metamove_reports_no_improvement_as_empty() {
    // from the solved state nothing improves the score
    let puzzle = Rc::new(cyclic_puzzle());
    let state = puzzle.get_initial_state();
    let singles = single_turn_metamoves(&puzzle);
    let best = find_best_metamove(Rc::clone(&puzzle), &state, &singles, 2);
    assert_eq!(best.turns.len(), 0);
    assert_eq!(best.num_affected_pieces, 0);
}
