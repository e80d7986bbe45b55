// End to end: a twenty-piece three-by-three cube model, scrambled by fixed
// seeded random turn sequences, is solved by the metamove solver in the
// majority of the seeded trials, and the yielded turn sequence replayed
// against the scrambled state always reproduces the solver's final state.

use std::rc::Rc;

use twisty_solver::metamove_solver::{MetaMoveSolver, MetaMoveSolverOpts};
use twisty_solver::puzzle::TwistyPuzzle;
use twisty_solver::solver::{ScrambleSolver, Solver};

// Pieces: corners 0..8 (UFL, UFR, UBR, UBL, DFL, DFR, DBR, DBL), then edges
// 8..20 (UF, UR, UB, UL, FL, FR, BR, BL, DF, DR, DB, DL).

// Records the four-cycle "piece at a moves to b moves to c moves to d moves
// to a" into a face map, where map[i] is the position whose occupant moves
// into position i.
fn record_cycle(map: &mut Vec<usize>, cells: [usize; 4]) {
    map[cells[1]] = cells[0];
    map[cells[2]] = cells[1];
    map[cells[3]] = cells[2];
    map[cells[0]] = cells[3];
}

fn face_turn(corners: [usize; 4], edges: [usize; 4]) -> Vec<usize> {
    let mut map: Vec<usize> = (0..20).collect();
    record_cycle(&mut map, corners);
    record_cycle(&mut map, edges);
    map
}

fn inverse_map(map: &Vec<usize>) -> Vec<usize> {
    let mut inv = vec![0usize; map.len()];
    for i in 0..map.len() {
        inv[map[i]] = i;
    }
    inv
}

fn cube_3x3() -> TwistyPuzzle {
    let clockwise = vec![
        face_turn([0, 1, 2, 3], [8, 9, 10, 11]),    // top layer
        face_turn([4, 7, 6, 5], [16, 19, 18, 17]),  // bottom layer
        face_turn([0, 4, 5, 1], [8, 12, 16, 13]),   // front layer
        face_turn([2, 6, 7, 3], [10, 14, 18, 15]),  // back layer
        face_turn([1, 5, 6, 2], [9, 13, 17, 14]),   // right layer
        face_turn([0, 3, 7, 4], [11, 15, 19, 12]),  // left layer
    ];
    let mut turns = Vec::new();
    for map in &clockwise {
        turns.push(map.clone());
        turns.push(inverse_map(map));
    }
    let solved: Vec<usize> = (0..20).collect();
    TwistyPuzzle::new(solved, turns).unwrap()
}

// A small deterministic generator so the scrambles are fixed by their seed.
fn seeded_turn_sequence(seed: u64, len: usize, num_turns: usize) -> Vec<usize> {
    let mut state = seed;
    let mut turns = Vec::new();
    for _ in 0..len {
        state = state
            .wrapping_mul(6364136223846793005)
            .wrapping_add(1442695040888963407);
        turns.push(((state >> 33) as usize) % num_turns);
    }
    turns
}

fn trial_opts() -> MetaMoveSolverOpts {
    let mut opts = MetaMoveSolverOpts::default();
    // sized so that one trial stays fast on this model while the library
    // still holds the short cycle moves the endgame needs
    opts.discovery_depth = 4;
    opts.max_affected_pieces = 4;
    opts.search_min_depth = 3;
    opts.search_max_depth = 4;
    opts
}

#[test]
fn solve_cube_majority_of_seeded_trials() {
    let puzzle = Rc::new(cube_3x3());
    assert_eq!(puzzle.get_num_pieces(), 20);
    let factory: Solver<MetaMoveSolver> = Solver::new(Rc::clone(&puzzle), trial_opts());
    let seeds: [u64; 3] = [1, 2, 3];
    let mut num_solved: usize = 0;
    for &seed in seeds.iter() {
        let scramble = seeded_turn_sequence(seed, 20, puzzle.get_num_turns());
        let scrambled =
            puzzle.get_derived_state_from_turn_sequence(&puzzle.get_initial_state(), &scramble);
        let mut solver = factory.solve(scrambled.clone()).unwrap();
        let mut solution: Vec<usize> = Vec::new();
        loop {
            // every pull applies one turn; a solution cannot be longer
            // than this without an unproductive cycle
            assert!(solution.len() < 5000);
            match solver.next() {
                Some(turn) => solution.push(turn),
                None => break,
            }
        }
        // the yielded sequence replays to exactly the state the solver
        // ended on, solved or not
        let replayed = puzzle.get_derived_state_from_turn_sequence(&scrambled, &solution);
        assert_eq!(replayed, *solver.get_state());
        let solved = *solver.get_state() == puzzle.get_initial_state();
        println!(
            "seed {}: {} in {} turns",
            seed,
            if solved { "solved" } else { "stalled unsolved" },
            solution.len()
        );
        if solved {
            num_solved += 1;
        }
    }
    println!("solved {} of {} seeded trials", num_solved, seeds.len());
    assert!(num_solved >= 2, "the solver must solve the majority of the seeded trials");
}
