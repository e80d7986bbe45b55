// The puzzle model: state derivation, scoring, metamove effects, and the
// construction-time validation of face maps.

use twisty_solver::metamove::{compose_vec, MetaMove};
use twisty_solver::puzzle::TwistyPuzzle;

// A five-piece cyclic puzzle: one turn rotates all pieces one step, the
// other rotates them back.
fn cyclic_puzzle() -> TwistyPuzzle {
    let solved = vec![0, 1, 2, 3, 4];
    // piece at position p moves to position p + 1; occupant of i comes from i - 1
    let forward = vec![4, 0, 1, 2, 3];
    let backward = vec![1, 2, 3, 4, 0];
    TwistyPuzzle::new(solved, vec![forward, backward]).unwrap()
}

// A four-piece puzzle with two overlapping swaps.
fn swap_puzzle() -> TwistyPuzzle {
    let solved = vec![0, 1, 2, 3];
    let swap_front = vec![1, 0, 2, 3];
    let swap_middle = vec![0, 2, 1, 3];
    TwistyPuzzle::new(solved, vec![swap_front, swap_middle]).unwrap()
}

#[test]
fn construction_rejects_non_bijections() {
    // value out of range
    assert!(TwistyPuzzle::new(vec![0, 1, 2], vec![vec![0, 1, 3]]).is_none());
    // repeated target
    assert!(TwistyPuzzle::new(vec![0, 1, 2], vec![vec![0, 0, 2]]).is_none());
    // wrong length
    assert!(TwistyPuzzle::new(vec![0, 1, 2], vec![vec![0, 1]]).is_none());
    // a proper permutation passes
    assert!(TwistyPuzzle::new(vec![0, 1, 2], vec![vec![2, 0, 1]]).is_some());
}

#[test]
fn derive_state_applies_the_face_map() {
    let puzzle = cyclic_puzzle();
    let start = puzzle.get_initial_state();
    let turned = puzzle.get_derived_state_turn_index(&start, 0);
    assert_eq!(turned, vec![4, 0, 1, 2, 3]);
    let back = puzzle.get_derived_state_turn_index(&turned, 1);
    assert_eq!(back, start);
}

#[test]
fn composition_is_associative() {
    // deriving by a then (b then c) equals (a then b) then c
    let puzzle = swap_puzzle();
    let a = vec![1, 0, 2, 3];
    let b = vec![0, 2, 1, 3];
    let c = vec![3, 1, 2, 0];
    let ab = compose_vec(&a, &b, 4);
    let bc = compose_vec(&b, &c, 4);
    let ab_then_c = compose_vec(&ab, &c, 4);
    let a_then_bc = compose_vec(&a, &bc, 4);
    assert_eq!(ab_then_c, a_then_bc);

    let state = vec![2, 0, 3, 1];
    let one = puzzle.get_derived_state(&state, &ab_then_c);
    let two = puzzle.get_derived_state(&state, &a_then_bc);
    assert_eq!(one, two);

    // and both equal applying the three maps one at a time
    let step = puzzle.get_derived_state(&state, &a);
    let step = puzzle.get_derived_state(&step, &b);
    let step = puzzle.get_derived_state(&step, &c);
    assert_eq!(step, one);
}

#[test]
fn score_is_bounded_and_full_on_solved() {
    let puzzle = cyclic_puzzle();
    let solved = puzzle.get_initial_state();
    assert_eq!(puzzle.get_num_solved_pieces(&solved), 5);

    let turned = puzzle.get_derived_state_turn_index(&solved, 0);
    let score = puzzle.get_num_solved_pieces(&turned);
    assert_eq!(score, 0);

    let partly = vec![0, 1, 3, 2, 4];
    assert_eq!(puzzle.get_num_solved_pieces(&partly), 3);
    assert!(puzzle.get_num_solved_pieces(&partly) <= puzzle.get_num_pieces());
}

#[test]
fn metamove_face_map_matches_turn_sequence() {
    // for a metamove, deriving from its turn sequence equals one
    // application of its composed face map
    let puzzle = cyclic_puzzle();
    let mm = MetaMove::new_infer_face_map(&puzzle, vec![0, 0, 1, 0]);
    let scrambled = vec![3, 1, 4, 0, 2];
    let via_turns = puzzle.get_derived_state_from_turn_sequence(&scrambled, &mm.turns);
    let via_map = puzzle.get_derived_state(&scrambled, &mm.face_map);
    assert_eq!(via_turns, via_map);
    // two forward turns and one cancelling pair displace all five pieces
    assert_eq!(mm.num_affected_pieces, 5);
}

#[test]
fn metamove_apply_composes_and_counts() {
    let puzzle = swap_puzzle();
    let first = MetaMove::new_infer_face_map(&puzzle, vec![0]);
    let second = MetaMove::new_infer_face_map(&puzzle, vec![1]);
    let combined = first.apply(&puzzle, &second);
    assert_eq!(combined.turns, vec![0, 1]);
    assert_eq!(combined.num_affected_pieces, 3);

    let state = puzzle.get_initial_state();
    let via_map = puzzle.get_derived_state(&state, &combined.face_map);
    let step = puzzle.get_derived_state_turn_index(&state, 0);
    let step = puzzle.get_derived_state_turn_index(&step, 1);
    assert_eq!(via_map, step);

    // a turn undone by itself is the identity metamove
    let cancel = first.apply(&puzzle, &first);
    assert_eq!(cancel.num_affected_pieces, 0);

    let empty = MetaMove::empty(&puzzle);
    assert_eq!(empty.turns.len(), 0);
    assert_eq!(empty.num_affected_pieces, 0);
}

#[test]
fn repeat_metamoves_are_powers() {
    let puzzle = cyclic_puzzle();
    let forward = MetaMove::new_infer_face_map(&puzzle, vec![0]);
    let repeats = forward.discover_repeat_metamoves(&puzzle, 5);
    assert_eq!(repeats.len(), 4);
    // the fifth power of a five-cycle is the identity
    assert_eq!(repeats[3].num_affected_pieces, 0);
    assert_eq!(repeats[3].turns, vec![0, 0, 0, 0, 0]);
    // the square displaces every piece
    assert_eq!(repeats[0].num_affected_pieces, 5);
    assert_eq!(repeats[0].turns, vec![0, 0]);
}
