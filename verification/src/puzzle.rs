//! The puzzle model: an immutable description of the pieces and the available
//! turns, a state type, state derivation, and the solved-piece score.

use vstd::prelude::*;

use crate::permutation::{apply_map, is_permutation, map_in_range};

verus! {

/// The arrangement of pieces: position index to the identifier of the piece
/// that occupies it.
pub type PuzzleState = Vec<usize>;

/// One atomic, reversible move: a total permutation of piece positions
/// describing where each piece moves when the turn is applied once.
pub struct Turn {
    pub face_map: Vec<usize>,
}

/// An immutable puzzle description: the solved arrangement of the pieces and
/// the fixed ordered list of turns. Shared by reference between every state
/// and solver that needs it.
pub struct TwistyPuzzle {
    pub solved_state: PuzzleState,
    pub turns: Vec<Turn>,
}

/// Every turn's face map is a total bijection over the piece positions.
pub open spec fn turns_wf(turns: Seq<Turn>, n: nat) -> bool {
    forall|i: int| 0 <= i < turns.len() ==> is_permutation((#[trigger] turns[i]).face_map@, n)
}

/// Number of positions whose occupant in `s` matches the occupant in the
/// solved state, counted over the prefix of length `k`.
pub open spec fn score_below(s: Seq<usize>, solved: Seq<usize>, k: nat) -> nat
    decreases k,
{
    if k == 0 {
        0
    } else {
        score_below(s, solved, (k - 1) as nat) + if s[k - 1] == solved[k - 1] {
            1nat
        } else {
            0nat
        }
    }
}

/// The solved-piece score of `s` against the solved state `solved`.
pub open spec fn state_score(s: Seq<usize>, solved: Seq<usize>) -> nat {
    score_below(s, solved, solved.len())
}

pub proof fn lemma_score_below_bound(s: Seq<usize>, solved: Seq<usize>, k: nat)
    ensures
        score_below(s, solved, k) <= k,
    decreases k,
{
    if k > 0 {
        lemma_score_below_bound(s, solved, (k - 1) as nat);
    }
}

pub proof fn lemma_score_below_self(s: Seq<usize>, k: nat)
    ensures
        score_below(s, s, k) == k,
    decreases k,
{
    if k > 0 {
        lemma_score_below_self(s, (k - 1) as nat);
    }
}

/// The score never exceeds the number of pieces, and the solved state scores
/// exactly the number of pieces.
pub proof fn lemma_score_bounds(s: Seq<usize>, solved: Seq<usize>)
    ensures
        state_score(s, solved) <= solved.len(),
        state_score(solved, solved) == solved.len(),
{
    lemma_score_below_bound(s, solved, solved.len());
    lemma_score_below_self(solved, solved.len());
}

/// A state of full score agrees with the solved state at every position.
pub proof fn lemma_full_score_is_solved(s: Seq<usize>, solved: Seq<usize>, k: nat)
    requires
        k <= solved.len(),
        score_below(s, solved, k) == k,
    ensures
        forall|i: int| 0 <= i < k ==> s[i] == solved[i],
    decreases k,
{
    if k > 0 {
        lemma_score_below_bound(s, solved, (k - 1) as nat);
        lemma_full_score_is_solved(s, solved, (k - 1) as nat);
    }
}

impl TwistyPuzzle {
    /// Every face map is a permutation of the piece positions and the piece
    /// count matches the solved state.
    pub open spec fn wf(&self) -> bool {
        turns_wf(self.turns@, self.solved_state@.len()) && self.solved_state@.len() <= usize::MAX
    }

    pub open spec fn spec_num_pieces(&self) -> nat {
        self.solved_state@.len()
    }

    pub open spec fn spec_solved_state(&self) -> Seq<usize> {
        self.solved_state@
    }

    pub open spec fn spec_turns(&self) -> Seq<Turn> {
        self.turns@
    }

    pub open spec fn spec_num_turns(&self) -> nat {
        self.turns@.len()
    }

    /// Builds a puzzle from a solved arrangement and the turns' face maps.
    /// Returns the puzzle exactly when every face map is a total bijection
    /// over the positions of `solved_state`.
    pub fn new(solved_state: PuzzleState, face_maps: Vec<Vec<usize>>) -> (r: Option<TwistyPuzzle>)
        ensures
            match r {
                Some(p) => {
                    &&& p.wf()
                    &&& p.spec_solved_state() == solved_state@
                    &&& p.spec_num_pieces() == solved_state@.len()
                    &&& p.spec_turns().len() == face_maps@.len()
                    &&& forall|i: int|
                        0 <= i < face_maps@.len() ==> (#[trigger] p.spec_turns()[i]).face_map@
                            == face_maps@[i]@
                },
                None => exists|i: int|
                    0 <= i < face_maps@.len() && !is_permutation(
                        (#[trigger] face_maps@[i])@,
                        solved_state@.len(),
                    ),
            },
    {
        let n = solved_state.len();
        let mut turns: Vec<Turn> = Vec::new();
        let mut i: usize = 0;
        while i < face_maps.len()
            invariant
                i <= face_maps@.len(),
                turns@.len() == i,
                forall|k: int|
                    0 <= k < i ==> (#[trigger] turns@[k]).face_map@ == face_maps@[k]@
                        && is_permutation(turns@[k].face_map@, n as nat),
                n == solved_state@.len(),
            decreases face_maps@.len() - i,
        {
            if !is_permutation_vec(&face_maps[i], n) {
                return None;
            }
            turns.push(Turn { face_map: clone_usize_vec(&face_maps[i]) });
            i += 1;
        }
        Some(TwistyPuzzle { solved_state, turns })
    }

    pub fn get_num_pieces(&self) -> (r: usize)
        ensures
            r == self.spec_num_pieces(),
    {
        self.solved_state.len()
    }

    pub fn get_num_turns(&self) -> (r: usize)
        ensures
            r == self.spec_num_turns(),
    {
        self.turns.len()
    }

    /// The canonical solved arrangement.
    pub fn get_initial_state(&self) -> (r: PuzzleState)
        ensures
            r@ == self.spec_solved_state(),
    {
        clone_usize_vec(&self.solved_state)
    }

    /// The face map of the turn with the given index.
    pub fn get_turn_face_map(&self, turn_index: usize) -> (r: &Vec<usize>)
        requires
            turn_index < self.spec_num_turns(),
        ensures
            r@ == self.spec_turns()[turn_index as int].face_map@,
    {
        &self.turns[turn_index].face_map
    }

    /// The state reached from `state` by one application of the map
    /// `face_map`; pure, the input state is not touched.
    pub fn get_derived_state(&self, state: &PuzzleState, face_map: &Vec<usize>) -> (r: PuzzleState)
        requires
            self.wf(),
            state@.len() == self.spec_num_pieces(),
            map_in_range(face_map@, self.spec_num_pieces()),
        ensures
            r@ == apply_map(state@, face_map@),
            r@.len() == self.spec_num_pieces(),
    {
        let mut r: Vec<usize> = Vec::new();
        let mut i: usize = 0;
        while i < face_map.len()
            invariant
                i <= face_map@.len(),
                r@.len() == i,
                forall|k: int| 0 <= k < i ==> r@[k] == state@[face_map@[k] as int],
                state@.len() == self.spec_num_pieces(),
                map_in_range(face_map@, self.spec_num_pieces()),
            decreases face_map@.len() - i,
        {
            r.push(state[face_map[i]]);
            i += 1;
        }
        assert(r@ =~= apply_map(state@, face_map@));
        r
    }

    /// The state reached from `state` by applying the turn with the given
    /// index once.
    pub fn get_derived_state_turn_index(&self, state: &PuzzleState, turn_index: usize) -> (r:
        PuzzleState)
        requires
            self.wf(),
            state@.len() == self.spec_num_pieces(),
            turn_index < self.spec_num_turns(),
        ensures
            r@ == apply_map(state@, self.spec_turns()[turn_index as int].face_map@),
            r@.len() == self.spec_num_pieces(),
    {
        let fm = &self.turns[turn_index].face_map;
        self.get_derived_state(state, fm)
    }

    /// The state reached from `state` by applying the turns with the given
    /// indices, first to last.
    pub fn get_derived_state_from_turn_sequence(&self, state: &PuzzleState, turn_indices: &Vec<
        usize,
    >) -> (r: PuzzleState)
        requires
            self.wf(),
            state@.len() == self.spec_num_pieces(),
            forall|i: int|
                0 <= i < turn_indices@.len() ==> (#[trigger] turn_indices@[i])
                    < self.spec_num_turns(),
        ensures
            r@ == self.spec_derived_from_sequence(state@, turn_indices@),
            r@.len() == self.spec_num_pieces(),
    {
        let mut cur = clone_usize_vec(state);
        let mut i: usize = 0;
        while i < turn_indices.len()
            invariant
                i <= turn_indices@.len(),
                self.wf(),
                state@.len() == self.spec_num_pieces(),
                cur@ == self.spec_derived_from_sequence(state@, turn_indices@.take(i as int)),
                cur@.len() == self.spec_num_pieces(),
                forall|k: int|
                    0 <= k < turn_indices@.len() ==> (#[trigger] turn_indices@[k])
                        < self.spec_num_turns(),
            decreases turn_indices@.len() - i,
        {
            proof {
                assert(turn_indices@.take(i + 1).drop_last() =~= turn_indices@.take(i as int));
                assert(turn_indices@.take(i + 1).last() == turn_indices@[i as int]);
            }
            cur = self.get_derived_state_turn_index(&cur, turn_indices[i]);
            i += 1;
        }
        proof {
            assert(turn_indices@.take(turn_indices@.len() as int) =~= turn_indices@);
        }
        cur
    }

    /// The state reached from `s` by folding turn application over the turn
    /// indices in order.
    pub open spec fn spec_derived_from_sequence(&self, s: Seq<usize>, turn_indices: Seq<usize>)
        -> Seq<usize>
        decreases turn_indices.len(),
    {
        if turn_indices.len() == 0 {
            s
        } else {
            apply_map(
                self.spec_derived_from_sequence(s, turn_indices.drop_last()),
                self.spec_turns()[turn_indices.last() as int].face_map@,
            )
        }
    }

    /// Counts the positions whose occupant matches the solved state: the
    /// solved-piece score. At most the number of pieces, and exactly the
    /// number of pieces on the solved state itself.
    pub fn get_num_solved_pieces(&self, state: &PuzzleState) -> (r: usize)
        requires
            state@.len() == self.spec_num_pieces(),
        ensures
            r == state_score(state@, self.spec_solved_state()),
            r <= self.spec_num_pieces(),
            state@ == self.spec_solved_state() ==> r == self.spec_num_pieces(),
    {
        let mut r: usize = 0;
        let mut i: usize = 0;
        while i < self.solved_state.len()
            invariant
                i <= self.spec_num_pieces(),
                state@.len() == self.spec_num_pieces(),
                r == score_below(state@, self.spec_solved_state(), i as nat),
                r <= i,
            decreases self.spec_num_pieces() - i,
        {
            if state[i] == self.solved_state[i] {
                r += 1;
            }
            i += 1;
        }
        proof {
            if state@ == self.spec_solved_state() {
                lemma_score_below_self(state@, state@.len());
            }
        }
        r
    }
}

/// Clones a vector of position indices.
pub fn clone_usize_vec(v: &Vec<usize>) -> (r: Vec<usize>)
    ensures
        r@ == v@,
{
    let mut r: Vec<usize> = Vec::new();
    let mut i: usize = 0;
    while i < v.len()
        invariant
            i <= v@.len(),
            r@ == v@.take(i as int),
        decreases v@.len() - i,
    {
        proof {
            assert(v@.take(i + 1) =~= v@.take(i as int).push(v@[i as int]));
        }
        r.push(v[i]);
        i += 1;
    }
    proof {
        assert(v@.take(v@.len() as int) =~= v@);
    }
    r
}

/// Decides whether `f` is a total bijection over the positions below `n`.
pub fn is_permutation_vec(f: &Vec<usize>, n: usize) -> (r: bool)
    ensures
        r == is_permutation(f@, n as nat),
{
    if f.len() != n {
        return false;
    }
    // hit[p] records that some earlier position maps to p
    let mut hit: Vec<bool> = Vec::new();
    let mut i: usize = 0;
    while i < n
        invariant
            i <= n,
            hit@.len() == i,
            forall|k: int| 0 <= k < i ==> !(#[trigger] hit@[k]),
        decreases n - i,
    {
        hit.push(false);
        i += 1;
    }
    let mut j: usize = 0;
    while j < n
        invariant
            j <= n,
            f@.len() == n,
            hit@.len() == n,
            forall|k: int| 0 <= k < j ==> (#[trigger] f@[k]) < n,
            forall|p: int|
                0 <= p < n ==> ((#[trigger] hit@[p]) <==> exists|k: int|
                    0 <= k < j && f@[k] == p),
            forall|a: int, b: int| 0 <= a < b < j ==> #[trigger] f@[a] != #[trigger] f@[b],
        decreases n - j,
    {
        let target = f[j];
        if target >= n {
            return false;
        }
        if hit[target] {
            proof {
                let k = choose|k: int| 0 <= k < j && f@[k] == target;
                assert(f@[k] == f@[j as int]);
            }
            return false;
        }
        hit.set(target, true);
        j += 1;
    }
    true
}

} // verus!
