// The discovery pipeline: enumerating cheap metamoves, deduplicating by net
// effect, and sorting the library by quality.

use twisty_solver::metamove::MetaMove;
use twisty_solver::pipeline::{
    combine_metamoves, discover_metamoves, filter_duplicates, sort_metamoves,
};
use twisty_solver::puzzle::TwistyPuzzle;

fn cyclic_puzzle() -> TwistyPuzzle {
    let solved = vec![0, 1, 2, 3, 4];
    let forward = vec![4, 0, 1, 2, 3];
    let backward = vec![1, 2, 3, 4, 0];
    TwistyPuzzle::new(solved, vec![forward, backward]).unwrap()
}

#[test]
fn discovery_keeps_only_cheap_combinations() {
    let puzzle = cyclic_puzzle();
    // every turn displaces all five pieces, so with a bound of zero only
    // combinations with the identity net effect are kept
    let discovered = discover_metamoves(&puzzle, 0, 5);
    assert!(discovered.len() > 0);
    for mm in &discovered {
        assert_eq!(mm.num_affected_pieces, 0);
    }
    // the first one met in depth-first order is five forward turns
    assert_eq!(discovered[0].turns, vec![0, 0, 0, 0, 0]);
    // a forward turn cancelled by a backward turn is found too
    assert!(discovered.iter().any(|mm| mm.turns == vec![0, 1]));
}

#[test]
fn combination_builds_on_a_previous_set() {
    let puzzle = cyclic_puzzle();
    let base = vec![
        MetaMove::new_infer_face_map(&puzzle, vec![0]),
        MetaMove::new_infer_face_map(&puzzle, vec![1]),
    ];
    // pairs of base metamoves; the identity-effect pairs are the two
    // cancelling ones
    let combined = combine_metamoves(&puzzle, &base, 0, 2);
    let lists: Vec<Vec<usize>> = combined.iter().map(|mm| mm.turns.clone()).collect();
    assert_eq!(lists, vec![vec![0, 1], vec![1, 0]]);
}

#[test]
fn filter_duplicates_keeps_fewest_turns_per_effect() {
    let puzzle = cyclic_puzzle();
    // three metamoves with the forward net effect, one with the backward
    let long_forward = MetaMove::new_infer_face_map(&puzzle, vec![0, 0, 1]);
    let short_forward = MetaMove::new_infer_face_map(&puzzle, vec![0]);
    let other_forward = MetaMove::new_infer_face_map(&puzzle, vec![1, 0, 0]);
    let backward = MetaMove::new_infer_face_map(&puzzle, vec![1]);
    let reduced = filter_duplicates(vec![long_forward, backward, short_forward, other_forward]);

    // one representative per distinct effect
    assert_eq!(reduced.len(), 2);
    for i in 0..reduced.len() {
        for j in 0..reduced.len() {
            if i != j {
                assert_ne!(reduced[i].face_map, reduced[j].face_map);
            }
        }
    }
    // the forward representative is the one-turn input, not a longer one
    let forward_rep = reduced.iter().find(|mm| mm.face_map == vec![4, 0, 1, 2, 3]).unwrap();
    assert_eq!(forward_rep.turns, vec![0]);
    let backward_rep = reduced.iter().find(|mm| mm.face_map == vec![1, 2, 3, 4, 0]).unwrap();
    assert_eq!(backward_rep.turns, vec![1]);
}

#[test]
fn filter_duplicates_replaces_a_longer_representative() {
    let puzzle = cyclic_puzzle();
    // the longer sequence comes first; the later shorter one must win
    let long_forward = MetaMove::new_infer_face_map(&puzzle, vec![0, 0, 1]);
    let short_forward = MetaMove::new_infer_face_map(&puzzle, vec![0]);
    let reduced = filter_duplicates(vec![long_forward, short_forward]);
    assert_eq!(reduced.len(), 1);
    assert_eq!(reduced[0].turns, vec![0]);
}

#[test]
fn sort_orders_by_affected_pieces_then_turn_count() {
    let puzzle = cyclic_puzzle();
    let identity = MetaMove::new_infer_face_map(&puzzle, vec![0, 1]);
    let one_turn = MetaMove::new_infer_face_map(&puzzle, vec![0]);
    let three_turns = MetaMove::new_infer_face_map(&puzzle, vec![0, 0, 0]);
    let sorted = sort_metamoves(vec![three_turns, one_turn, identity]);
    assert_eq!(sorted.len(), 3);
    // the identity (zero affected pieces) comes first, then by turn count
    assert_eq!(sorted[0].turns, vec![0, 1]);
    assert_eq!(sorted[1].turns, vec![0]);
    assert_eq!(sorted[2].turns, vec![0, 0, 0]);
}
