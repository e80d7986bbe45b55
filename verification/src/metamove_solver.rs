//! The metamove solver: phase one runs a shallow raw-turn search to raise
//! the solved-piece score quickly; phase two repeatedly searches
//! combinations of a precomputed metamove library for the best next
//! improvement, applying turns until the state is solved or no improvement
//! is left.

use std::rc::Rc;

use vstd::prelude::*;

use crate::metamove::{lemma_moved_identity, lemma_seq_face_map_permutation, mm_wf, MetaMove, MetaMoveView};
use crate::permutation::{apply_map, identity_map};
use crate::pipeline::{
    combine_metamoves, discover_metamoves, empty_view, filter_duplicates, single_turn_metamoves,
    single_turn_views, sort_metamoves,
};
use crate::puzzle::{clone_usize_vec, state_score, PuzzleState, TwistyPuzzle};
use crate::solver::ScrambleSolver;
use crate::traverse::{
    dfs_nodes, first_stop, lemma_dfs_from_wf, run_steps, traverse_combinations, views_of,
    TraverseResult, TraverseVisitor,
};

verus! {

/// The model of a best-combination search: the solved state, the state the
/// search starts from, the two policy switches, and the best candidate so
/// far with its score.
#[verifier::ext_equal]
pub struct BestModel {
    pub solved: Seq<usize>,
    pub state: Seq<usize>,
    pub tie_break_turns: bool,
    pub stop_on_solved: bool,
    pub best: MetaMoveView,
    pub best_score: nat,
}

/// The score a candidate reaches from the model's state.
pub open spec fn candidate_score(m: BestModel, node: MetaMoveView) -> nat {
    state_score(apply_map(m.state, node.face_map), m.solved)
}

/// A visitor that tracks the visited metamove reaching the best score. With
/// `tie_break_turns` a candidate that ties the best score but uses fewer
/// turns also wins; with `stop_on_solved` the walk aborts the moment any
/// candidate reaches the fully solved state.
pub struct BestVisitor {
    pub puzzle: Rc<TwistyPuzzle>,
    pub state: PuzzleState,
    pub tie_break_turns: bool,
    pub stop_on_solved: bool,
    pub best: MetaMove,
    pub best_score: usize,
}

impl TraverseVisitor for BestVisitor {
    type Model = BestModel;

    open spec fn model(&self) -> BestModel {
        BestModel {
            solved: (*self.puzzle).spec_solved_state(),
            state: self.state@,
            tie_break_turns: self.tie_break_turns,
            stop_on_solved: self.stop_on_solved,
            best: self.best@,
            best_score: self.best_score as nat,
        }
    }

    open spec fn inv(&self) -> bool {
        &&& (*self.puzzle).wf()
        &&& self.state@.len() == (*self.puzzle).spec_num_pieces()
        &&& mm_wf(&*self.puzzle, self.best@)
    }

    open spec fn puzzle(&self) -> TwistyPuzzle {
        *self.puzzle
    }

    open spec fn step(m: BestModel, node: MetaMoveView) -> BestModel {
        let sc = candidate_score(m, node);
        if sc > m.best_score || (m.tie_break_turns && sc == m.best_score && node.turns.len()
            < m.best.turns.len()) {
            BestModel { best: node, best_score: sc, ..m }
        } else {
            m
        }
    }

    open spec fn stops(m: BestModel, node: MetaMoveView) -> bool {
        m.stop_on_solved && candidate_score(m, node) == m.solved.len()
    }

    fn visit(&mut self, mm: &MetaMove) -> (r: TraverseResult) {
        proof {
            lemma_seq_face_map_permutation(&*self.puzzle, mm@.turns);
        }
        let next_state = self.puzzle.get_derived_state(&self.state, &mm.face_map);
        let next_score = self.puzzle.get_num_solved_pieces(&next_state);
        if next_score > self.best_score || (self.tie_break_turns && next_score == self.best_score
            && mm.turns.len() < self.best.turns.len()) {
            self.best = mm.duplicate();
            self.best_score = next_score;
        }
        if self.stop_on_solved && next_score == self.puzzle.get_num_pieces() {
            return TraverseResult::Break;
        }
        TraverseResult::Continue
    }
}

/// The search's starting model: nothing chosen yet, the current score to
/// beat.
pub open spec fn initial_best_model(
    p: &TwistyPuzzle,
    state: Seq<usize>,
    tie_break_turns: bool,
    stop_on_solved: bool,
) -> BestModel {
    BestModel {
        solved: p.spec_solved_state(),
        state,
        tie_break_turns,
        stop_on_solved,
        best: empty_view(p),
        best_score: state_score(state, p.spec_solved_state()),
    }
}

/// The final model of a best-combination search over the visitation order of
/// `pool` to `depth`, cut short at the first fully solving candidate when
/// the search stops on solved.
pub open spec fn best_outcome(
    p: &TwistyPuzzle,
    state: Seq<usize>,
    pool: Seq<MetaMoveView>,
    depth: nat,
    tie_break_turns: bool,
    stop_on_solved: bool,
) -> BestModel {
    let m0 = initial_best_model(p, state, tie_break_turns, stop_on_solved);
    let nodes = dfs_nodes(pool, depth, empty_view(p));
    match first_stop::<BestVisitor>(m0, nodes) {
        None => run_steps::<BestVisitor>(m0, nodes),
        Some(i) => run_steps::<BestVisitor>(m0, nodes.take(i + 1)),
    }
}

/// Folding a best-search walk touches only the chosen candidate and score,
/// and keeps the candidate well formed when all nodes are.
proof fn lemma_best_run_preserves(p: &TwistyPuzzle, m: BestModel, nodes: Seq<MetaMoveView>)
    requires
        p.wf(),
        mm_wf(p, m.best),
        forall|k: int| 0 <= k < nodes.len() ==> mm_wf(p, #[trigger] nodes[k]),
    ensures
        run_steps::<BestVisitor>(m, nodes).solved == m.solved,
        run_steps::<BestVisitor>(m, nodes).state == m.state,
        run_steps::<BestVisitor>(m, nodes).tie_break_turns == m.tie_break_turns,
        run_steps::<BestVisitor>(m, nodes).stop_on_solved == m.stop_on_solved,
        mm_wf(p, run_steps::<BestVisitor>(m, nodes).best),
    decreases nodes.len(),
{
    if nodes.len() > 0 {
        let m1 = BestVisitor::step(m, nodes[0]);
        assert forall|k: int| 0 <= k < nodes.drop_first().len() implies mm_wf(
            p,
            #[trigger] nodes.drop_first()[k],
        ) by {
            assert(nodes.drop_first()[k] == nodes[k + 1]);
        }
        lemma_best_run_preserves(p, m1, nodes.drop_first());
    }
}

/// The outcome of a best search keeps the inputs and a well-formed choice.
pub proof fn lemma_best_outcome_wf(
    p: &TwistyPuzzle,
    state: Seq<usize>,
    pool: Seq<MetaMoveView>,
    depth: nat,
    tie_break_turns: bool,
    stop_on_solved: bool,
)
    requires
        p.wf(),
        forall|k: int| 0 <= k < pool.len() ==> mm_wf(p, #[trigger] pool[k]),
    ensures
        ({
            let out = best_outcome(p, state, pool, depth, tie_break_turns, stop_on_solved);
            &&& out.solved == p.spec_solved_state()
            &&& out.state == state
            &&& mm_wf(p, out.best)
        }),
{
    let m0 = initial_best_model(p, state, tie_break_turns, stop_on_solved);
    let nodes = dfs_nodes(pool, depth, empty_view(p));
    assert(mm_wf(p, empty_view(p))) by {
        lemma_empty_view_wf(p);
    }
    lemma_dfs_from_wf(p, pool, depth, empty_view(p), 0);
    match first_stop::<BestVisitor>(m0, nodes) {
        None => {
            lemma_best_run_preserves(p, m0, nodes);
        },
        Some(i) => {
            crate::traverse::lemma_first_stop_in_bounds::<BestVisitor>(m0, nodes);
            assert forall|k: int| 0 <= k < nodes.take(i + 1).len() implies mm_wf(
                p,
                #[trigger] nodes.take(i + 1)[k],
            ) by {
                assert(nodes.take(i + 1)[k] == nodes[k]);
            }
            lemma_best_run_preserves(p, m0, nodes.take(i + 1));
        },
    }
}

/// Folding a best-search walk only ever raises the recorded score, and any
/// recorded candidate with at least one turn reaches its recorded score
/// from the search's state, strictly above where the search started.
proof fn lemma_best_run_improvement(m: BestModel, nodes: Seq<MetaMoveView>, s0: nat)
    requires
        m.best_score >= s0,
        m.best.turns.len() > 0 ==> candidate_score(m, m.best) == m.best_score && m.best_score > s0,
    ensures
        ({
            let out = run_steps::<BestVisitor>(m, nodes);
            &&& out.best_score >= s0
            &&& out.best.turns.len() > 0 ==> candidate_score(
                BestModel { best: out.best, best_score: out.best_score, ..m },
                out.best,
            ) == out.best_score && out.best_score > s0
        }),
    decreases nodes.len(),
{
    if nodes.len() > 0 {
        let m1 = BestVisitor::step(m, nodes[0]);
        lemma_best_run_preserves_plain(m, nodes);
        lemma_best_run_improvement(m1, nodes.drop_first(), s0);
    }
}

/// Folding a best-search walk leaves everything but the candidate and the
/// score alone.
proof fn lemma_best_run_preserves_plain(m: BestModel, nodes: Seq<MetaMoveView>)
    ensures
        run_steps::<BestVisitor>(m, nodes).solved == m.solved,
        run_steps::<BestVisitor>(m, nodes).state == m.state,
        run_steps::<BestVisitor>(m, nodes).tie_break_turns == m.tie_break_turns,
        run_steps::<BestVisitor>(m, nodes).stop_on_solved == m.stop_on_solved,
    decreases nodes.len(),
{
    if nodes.len() > 0 {
        lemma_best_run_preserves_plain(BestVisitor::step(m, nodes[0]), nodes.drop_first());
    }
}

/// A search never selects a useless combination: whenever the chosen
/// metamove has any turn at all, one application of its face map strictly
/// improves the solved-piece score over the state the search started from.
/// With the buffer replaying the chosen turns one pull at a time, every
/// search-backed pull makes progress, which is what keeps a solve from
/// looping forever.
pub proof fn lemma_best_outcome_improves(
    p: &TwistyPuzzle,
    state: Seq<usize>,
    pool: Seq<MetaMoveView>,
    depth: nat,
    tie_break_turns: bool,
    stop_on_solved: bool,
)
    ensures
        ({
            let out = best_outcome(p, state, pool, depth, tie_break_turns, stop_on_solved);
            out.best.turns.len() > 0 ==> state_score(
                apply_map(state, out.best.face_map),
                p.spec_solved_state(),
            ) > state_score(state, p.spec_solved_state())
        }),
{
    let m0 = initial_best_model(p, state, tie_break_turns, stop_on_solved);
    let s0 = state_score(state, p.spec_solved_state());
    let nodes = dfs_nodes(pool, depth, empty_view(p));
    match first_stop::<BestVisitor>(m0, nodes) {
        None => {
            lemma_best_run_improvement(m0, nodes, s0);
            lemma_best_run_preserves_plain(m0, nodes);
        },
        Some(i) => {
            lemma_best_run_improvement(m0, nodes.take(i + 1), s0);
            lemma_best_run_preserves_plain(m0, nodes.take(i + 1));
        },
    }
}

/// The identity metamove is well formed.
pub proof fn lemma_empty_view_wf(p: &TwistyPuzzle)
    requires
        p.wf(),
    ensures
        mm_wf(p, empty_view(p)),
{
    let n = p.spec_num_pieces();
    assert(forall|i: int| 0 <= i < n ==> (#[trigger] identity_map(n)[i]) == i);
    lemma_moved_identity(identity_map(n), n);
}

/// Runs a best-combination search and returns the chosen metamove.
fn best_search(
    puzzle: &Rc<TwistyPuzzle>,
    state: &PuzzleState,
    pool: &Vec<MetaMove>,
    depth: usize,
    tie_break_turns: bool,
    stop_on_solved: bool,
) -> (r: MetaMove)
    requires
        (**puzzle).wf(),
        state@.len() == (**puzzle).spec_num_pieces(),
        forall|k: int| 0 <= k < pool@.len() ==> mm_wf(&(**puzzle), (#[trigger] pool@[k])@),
    ensures
        r@ == best_outcome(
            &(**puzzle),
            state@,
            views_of(pool@),
            depth as nat,
            tie_break_turns,
            stop_on_solved,
        ).best,
        mm_wf(&(**puzzle), r@),
{
    let seed = MetaMove::empty(puzzle);
    let start_score = puzzle.get_num_solved_pieces(state);
    let mut visitor = BestVisitor {
        puzzle: Rc::clone(puzzle),
        state: clone_usize_vec(state),
        tie_break_turns,
        stop_on_solved,
        best: MetaMove::empty(puzzle),
        best_score: start_score,
    };
    proof {
        assert(seed@ =~= empty_view(&(**puzzle)));
        assert(visitor.best@ =~= empty_view(&(**puzzle)));
        assert(visitor.model() =~= initial_best_model(
            &(**puzzle),
            state@,
            tie_break_turns,
            stop_on_solved,
        ));
        lemma_best_outcome_wf(
            &(**puzzle),
            state@,
            views_of(pool@),
            depth as nat,
            tie_break_turns,
            stop_on_solved,
        );
    }
    traverse_combinations(puzzle, pool, depth, &seed, &mut visitor);
    visitor.best
}

/// Runs the traversal engine over the metamove library at the given depth
/// and returns the combination that most improves the solved-piece score
/// from `state`, aborting the search the instant a fully solving combination
/// is visited. When nothing improves the score, the returned metamove is the
/// empty one.
pub fn find_best_metamove(
    puzzle: Rc<TwistyPuzzle>,
    state: &PuzzleState,
    metamoves: &Vec<MetaMove>,
    depth: usize,
) -> (r: MetaMove)
    requires
        (*puzzle).wf(),
        state@.len() == (*puzzle).spec_num_pieces(),
        forall|k: int| 0 <= k < metamoves@.len() ==> mm_wf(&(*puzzle), (#[trigger] metamoves@[k])@),
    ensures
        r@ == best_outcome(
            &(*puzzle),
            state@,
            views_of(metamoves@),
            depth as nat,
            false,
            true,
        ).best,
        mm_wf(&(*puzzle), r@),
{
    best_search(&puzzle, state, metamoves, depth, false, true)
}

/// A well-formed metamove with a nonzero displacement count has at least
/// one turn.
pub proof fn lemma_nonzero_affected_turns(p: &TwistyPuzzle, v: MetaMoveView)
    requires
        p.wf(),
        mm_wf(p, v),
        v.affected != 0,
    ensures
        v.turns.len() > 0,
{
    if v.turns.len() == 0 {
        let n = p.spec_num_pieces();
        assert(v.face_map == identity_map(n));
        assert(forall|i: int| 0 <= i < n ==> (#[trigger] identity_map(n)[i]) == i);
        lemma_moved_identity(v.face_map, v.face_map.len());
    }
}

/// The turns the solver still owes after yielding a metamove's first turn.
fn vec_tail(v: &Vec<usize>) -> (r: Vec<usize>)
    requires
        v@.len() >= 1,
    ensures
        r@ == v@.drop_first(),
{
    let mut r: Vec<usize> = Vec::new();
    let mut i: usize = 1;
    while i < v.len()
        invariant
            1 <= i <= v@.len(),
            r@.len() == i - 1,
            forall|k: int| 0 <= k < i - 1 ==> r@[k] == v@[k + 1],
        decreases v@.len() - i,
    {
        r.push(v[i]);
        i += 1;
    }
    proof {
        assert(r@ =~= v@.drop_first());
    }
    r
}

/// What the raw-turn search phase decides: the first depth in the tried
/// range whose best combination displaces any piece wins; when no depth in
/// the range improves anything, the phase decides nothing and the solver
/// moves on to its metamove phase.
pub open spec fn search_choice(
    p: &TwistyPuzzle,
    state: Seq<usize>,
    pool: Seq<MetaMoveView>,
    dmin: nat,
    dmax: nat,
) -> Option<MetaMoveView>
    decreases dmax + 1 - dmin,
{
    if dmin > dmax {
        None
    } else {
        let b = best_outcome(p, state, pool, dmin, true, false).best;
        if b.affected != 0 {
            Some(b)
        } else {
            search_choice(p, state, pool, dmin + 1, dmax)
        }
    }
}

/// Depths whose best combination displaces nothing do not affect the
/// search phase's decision.
proof fn lemma_search_choice_skip(
    p: &TwistyPuzzle,
    state: Seq<usize>,
    pool: Seq<MetaMoveView>,
    dmin: nat,
    d: nat,
    dmax: nat,
)
    requires
        dmin <= d <= dmax + 1,
        forall|e: nat|
            dmin <= e < d ==> (#[trigger] best_outcome(p, state, pool, e, true, false)).best.affected
                == 0,
    ensures
        search_choice(p, state, pool, dmin, dmax) == search_choice(p, state, pool, d, dmax),
    decreases d - dmin,
{
    if d > dmin {
        assert(best_outcome(p, state, pool, dmin, true, false).best.affected == 0);
        lemma_search_choice_skip(p, state, pool, dmin + 1, d, dmax);
    }
}

/// What one pull does in the metamove phase, from a given state over a
/// given library: the best combination's first turn is applied and yielded
/// and the rest buffered, or nothing is yielded and nothing changes when
/// the search finds no improving combination.
pub open spec fn metamove_phase_post(
    p: &TwistyPuzzle,
    state: Seq<usize>,
    pool: Seq<MetaMoveView>,
    depth: nat,
    final_state: Seq<usize>,
    final_buffer: Seq<usize>,
    r: Option<usize>,
) -> bool {
    let b = best_outcome(p, state, pool, depth, false, true).best;
    if b.turns.len() > 0 {
        &&& r == Some(b.turns[0])
        &&& final_state == apply_map(state, p.spec_turns()[b.turns[0] as int].face_map@)
        &&& final_buffer == b.turns.drop_first()
    } else {
        &&& r is None
        &&& final_state == state
        &&& final_buffer.len() == 0
    }
}

/// What one pull does in the raw-turn search phase from a given state: the
/// search decision's first turn is applied and yielded and the rest
/// buffered; when the search decides nothing the pull falls through to the
/// metamove phase for good.
pub open spec fn search_phase_post(
    p: &TwistyPuzzle,
    state: Seq<usize>,
    library: Seq<MetaMoveView>,
    opts: MetaMoveSolverOpts,
    depth: nat,
    final_state: Seq<usize>,
    final_buffer: Seq<usize>,
    final_phase: SolvePhase,
    r: Option<usize>,
) -> bool {
    match search_choice(
        p,
        state,
        single_turn_views(p),
        opts.search_min_depth as nat,
        opts.search_max_depth as nat,
    ) {
        Some(b) => {
            &&& r == Some(b.turns[0])
            &&& final_state == apply_map(state, p.spec_turns()[b.turns[0] as int].face_map@)
            &&& final_buffer == b.turns.drop_first()
            &&& final_phase is Search
        },
        None => {
            &&& metamove_phase_post(p, state, library, depth, final_state, final_buffer, r)
            &&& final_phase is Metamoves
        },
    }
}

/// Which solving phase the solver is in: the initial shallow raw-turn
/// search, or the terminal metamove phase.
pub enum SolvePhase {
    Search,
    Metamoves,
}

/// The tunable thresholds of the solver's precomputation and search. The
/// depths and bounds are engineering choices trading solution quality for
/// tractable runtime, not fixed law.
#[derive(Clone, Copy)]
pub struct MetaMoveSolverOpts {
    /// Depth of the raw-turn enumeration that discovers metamoves.
    pub discovery_depth: usize,
    /// Depth to which discovered metamoves are combined with each other.
    pub combination_depth: usize,
    /// A metamove stays in the library only if it displaces at most this
    /// many pieces.
    pub max_affected_pieces: usize,
    /// How many times a metamove is repeated against itself when looking
    /// for repeats whose internal cycles cancel.
    pub max_repeats: usize,
    /// First depth the raw-turn search phase tries on each pull.
    pub search_min_depth: usize,
    /// Last depth the raw-turn search phase tries on each pull.
    pub search_max_depth: usize,
    /// Depth of the library search in the metamove phase.
    pub metamove_depth: usize,
}

impl Default for MetaMoveSolverOpts {
    /// The standard configuration.
    fn default() -> (r: Self)
        ensures
            r.discovery_depth == 5,
            r.combination_depth == 2,
            r.max_affected_pieces == 3,
            r.max_repeats == 6,
            r.search_min_depth == 4,
            r.search_max_depth == 5,
            r.metamove_depth == 2,
    {
        MetaMoveSolverOpts {
            discovery_depth: 5,
            combination_depth: 2,
            max_affected_pieces: 3,
            max_repeats: 6,
            search_min_depth: 4,
            search_max_depth: 5,
            metamove_depth: 2,
        }
    }
}

/// The powers of a metamove from two up to `max_repeats`, keeping those
/// that displace at most `bound` pieces.
pub open spec fn repeats_of(v: MetaMoveView, max_repeats: nat, bound: nat) -> Seq<MetaMoveView>
    decreases max_repeats,
{
    if max_repeats < 2 {
        Seq::empty()
    } else {
        repeats_of(v, (max_repeats - 1) as nat, bound) + (if MetaMove::repeat_view(
            v,
            max_repeats,
        ).affected <= bound {
            seq![MetaMove::repeat_view(v, max_repeats)]
        } else {
            Seq::empty()
        })
    }
}

/// Each metamove's kept repeats followed by the metamove itself when it is
/// cheap enough, in order.
pub open spec fn expand_with_repeats(s: Seq<MetaMoveView>, max_repeats: nat, bound: nat) -> Seq<
    MetaMoveView,
>
    decreases s.len(),
{
    if s.len() == 0 {
        Seq::empty()
    } else {
        expand_with_repeats(s.drop_last(), max_repeats, bound) + repeats_of(
            s.last(),
            max_repeats,
            bound,
        ) + (if s.last().affected <= bound {
            seq![s.last()]
        } else {
            Seq::empty()
        })
    }
}

/// The metamove library that precomputation builds for a puzzle and a
/// configuration: discover combinations cheaper than the first raw turn,
/// deduplicate, combine pairs, deduplicate, expand repeats and keep the
/// cheap ones, and deduplicate once more. The solver holds exactly these
/// metamoves, sorted by quality.
pub open spec fn pipeline_library(p: &TwistyPuzzle, opts: MetaMoveSolverOpts) -> Seq<MetaMoveView> {
    let turn_affected = single_turn_views(p)[0].affected;
    let discovered = crate::pipeline::accepted_of(
        dfs_nodes(single_turn_views(p), opts.discovery_depth as nat, empty_view(p)),
        (turn_affected - 1) as nat,
    );
    let base = crate::pipeline::dedup_of(discovered);
    let combined = crate::pipeline::accepted_of(
        dfs_nodes(base, opts.combination_depth as nat, empty_view(p)),
        p.spec_num_pieces(),
    );
    let expanded = expand_with_repeats(
        crate::pipeline::dedup_of(combined),
        opts.max_repeats as nat,
        opts.max_affected_pieces as nat,
    );
    crate::pipeline::dedup_of(expanded)
}

/// When solver construction succeeds: the configuration is sane, the
/// puzzle has turns, its first turn displaces something, and the
/// precomputed library is not empty.
pub open spec fn buildable(p: &TwistyPuzzle, opts: MetaMoveSolverOpts) -> bool {
    &&& opts.max_repeats < usize::MAX
    &&& opts.search_max_depth < usize::MAX
    &&& opts.search_min_depth <= opts.search_max_depth
    &&& p.spec_num_turns() > 0
    &&& single_turn_views(p)[0].affected != 0
    &&& pipeline_library(p, opts).len() > 0
}

/// The metamove solver's state: the shared puzzle, the current piece
/// arrangement, the solving phase, the precomputed metamove library with
/// its search depth, and the turns already decided but not yet yielded.
pub struct MetaMoveSolver {
    pub puzzle: Rc<TwistyPuzzle>,
    pub state: PuzzleState,
    pub phase: SolvePhase,
    pub depth: usize,
    pub metamoves: Vec<MetaMove>,
    pub buffered_turns: Vec<usize>,
    pub opts: MetaMoveSolverOpts,
}

impl MetaMoveSolver {
    pub open spec fn inv(&self) -> bool {
        &&& (*self.puzzle).wf()
        &&& self.state@.len() == (*self.puzzle).spec_num_pieces()
        &&& forall|k: int|
            0 <= k < self.metamoves@.len() ==> mm_wf(
                &*self.puzzle,
                (#[trigger] self.metamoves@[k])@,
            )
        &&& forall|k: int|
            0 <= k < self.buffered_turns@.len() ==> (#[trigger] self.buffered_turns@[k])
                < (*self.puzzle).spec_num_turns()
        &&& self.opts.max_repeats < usize::MAX
        &&& self.opts.search_max_depth < usize::MAX
        &&& self.opts.search_min_depth <= self.opts.search_max_depth
    }

    /// Performs the whole precomputation: discovers metamoves cheaper than
    /// a raw turn, combines them, deduplicates by net effect, expands
    /// repeats, filters by cheapness, deduplicates again and sorts the
    /// library by quality. Fails exactly when the configuration leaves the
    /// solver without a usable library: absurd thresholds, a puzzle with no
    /// turns or an identity first turn, or a pipeline whose final library
    /// is empty.
    pub fn build(puzzle: Rc<TwistyPuzzle>, initial_state: PuzzleState, opts: MetaMoveSolverOpts)
        -> (r: Option<MetaMoveSolver>)
        requires
            (*puzzle).wf(),
            initial_state@.len() == (*puzzle).spec_num_pieces(),
        ensures
            match r {
                Some(s) => {
                    &&& s.inv()
                    &&& *s.puzzle == *puzzle
                    &&& s.state@ == initial_state@
                    &&& s.phase is Search
                    &&& s.buffered_turns@.len() == 0
                    &&& s.metamoves@.len() > 0
                    &&& s.depth == opts.metamove_depth
                    &&& s.opts == opts
                    &&& forall|i: int|
                        0 <= i < s.metamoves@.len() ==> (#[trigger] s.metamoves@[i])@.affected
                            <= opts.max_affected_pieces
                    &&& forall|i: int, j: int|
                        0 <= i < j < s.metamoves@.len() ==> crate::pipeline::mm_quality_le(
                            (#[trigger] s.metamoves@[i])@,
                            (#[trigger] s.metamoves@[j])@,
                        )
                    &&& views_of(s.metamoves@).to_multiset() == pipeline_library(
                        &*puzzle,
                        opts,
                    ).to_multiset()
                },
                None => true,
            },
            (r is Some) <==> buildable(&*puzzle, opts),
    {
        let ghost p = &*puzzle;
        if opts.max_repeats >= usize::MAX || opts.search_max_depth >= usize::MAX
            || opts.search_min_depth > opts.search_max_depth {
            return None;
        }
        if puzzle.get_num_turns() == 0 {
            return None;
        }
        let mut first_turn_only: Vec<usize> = Vec::new();
        first_turn_only.push(0);
        let probe = MetaMove::new_infer_face_map(&puzzle, first_turn_only);
        proof {
            assert(probe@.turns =~= seq![0usize]);
            assert(probe@.turns.drop_last() =~= Seq::<usize>::empty());
            assert(probe@.turns.last() == 0usize);
            crate::permutation::lemma_compose_identity(
                p.spec_turns()[0].face_map@,
                p.spec_num_pieces(),
            );
            assert(crate::metamove::seq_face_map(p, Seq::<usize>::empty()) == identity_map(
                p.spec_num_pieces(),
            ));
            assert(probe@.face_map == p.spec_turns()[0].face_map@);
            assert(probe@.affected == single_turn_views(p)[0].affected);
        }
        let turn_num_affected_pieces = probe.num_affected_pieces;
        if turn_num_affected_pieces == 0 {
            return None;
        }
        // metamoves whose net effect is smaller than a single raw turn
        let discovered = discover_metamoves(
            &puzzle,
            turn_num_affected_pieces - 1,
            opts.discovery_depth,
        );
        let ghost discovered_spec = crate::pipeline::accepted_of(
            dfs_nodes(single_turn_views(p), opts.discovery_depth as nat, empty_view(p)),
            (single_turn_views(p)[0].affected - 1) as nat,
        );
        proof {
            assert(views_of(discovered@) == discovered_spec);
        }
        let discovered = filter_duplicates(discovered);
        proof {
            assert(views_of(discovered@) == crate::pipeline::dedup_of(discovered_spec));
        }
        proof {
            assert forall|k: int| 0 <= k < discovered@.len() implies mm_wf(
                &*puzzle,
                (#[trigger] discovered@[k])@,
            ) by {
                assert(views_of(discovered@)[k] == discovered@[k]@);
            }
        }
        // compound metamoves from pairs of the discovered ones
        let combined = combine_metamoves(
            &puzzle,
            &discovered,
            puzzle.get_num_pieces(),
            opts.combination_depth,
        );
        let ghost combined_spec = crate::pipeline::accepted_of(
            dfs_nodes(
                crate::pipeline::dedup_of(discovered_spec),
                opts.combination_depth as nat,
                empty_view(p),
            ),
            p.spec_num_pieces(),
        );
        let deduped = filter_duplicates(combined);
        let ghost deduped_spec = crate::pipeline::dedup_of(combined_spec);
        proof {
            assert(views_of(combined@) == combined_spec);
            assert(views_of(deduped@) == deduped_spec);
            assert forall|k: int| 0 <= k < deduped@.len() implies mm_wf(
                &*puzzle,
                (#[trigger] deduped@[k])@,
            ) by {
                assert(views_of(deduped@)[k] == deduped@[k]@);
            }
        }
        // repeat each metamove against itself so internal cycles can
        // cancel, and keep only the cheap results
        let mut expanded: Vec<MetaMove> = Vec::new();
        let ghost bound = opts.max_affected_pieces as nat;
        let ghost reps = opts.max_repeats as nat;
        proof {
            assert(views_of(expanded@) =~= Seq::<MetaMoveView>::empty());
            assert(expand_with_repeats(deduped_spec.take(0), reps, bound)
                =~= Seq::<MetaMoveView>::empty());
        }
        let mut i: usize = 0;
        while i < deduped.len()
            invariant
                i <= deduped@.len(),
                (*puzzle).wf(),
                opts.max_repeats < usize::MAX,
                bound == opts.max_affected_pieces as nat,
                reps == opts.max_repeats as nat,
                deduped_spec == views_of(deduped@),
                views_of(expanded@) == expand_with_repeats(deduped_spec.take(i as int), reps, bound),
                forall|k: int|
                    0 <= k < deduped@.len() ==> mm_wf(&*puzzle, (#[trigger] deduped@[k])@),
                forall|k: int|
                    0 <= k < expanded@.len() ==> mm_wf(&*puzzle, (#[trigger] expanded@[k])@),
                forall|k: int|
                    0 <= k < expanded@.len() ==> (#[trigger] expanded@[k])@.affected
                        <= opts.max_affected_pieces,
            decreases deduped@.len() - i,
        {
            let ghost outer_before = views_of(expanded@);
            let ghost v = deduped@[i as int]@;
            let repeats = deduped[i].discover_repeat_metamoves(&puzzle, opts.max_repeats);
            let mut j: usize = 0;
            while j < repeats.len()
                invariant
                    j <= repeats@.len(),
                    (*puzzle).wf(),
                    bound == opts.max_affected_pieces as nat,
                    v == deduped@[i as int]@,
                    i < deduped@.len(),
                    mm_wf(&*puzzle, v),
                    repeats@.len() < usize::MAX,
                    forall|k: int|
                        0 <= k < repeats@.len() ==> (#[trigger] repeats@[k])@
                            == MetaMove::repeat_view(v, (k + 2) as nat),
                    views_of(expanded@) == outer_before + repeats_of(v, (j + 1) as nat, bound),
                    forall|k: int|
                        0 <= k < repeats@.len() ==> mm_wf(&*puzzle, (#[trigger] repeats@[k])@),
                    forall|k: int|
                        0 <= k < expanded@.len() ==> mm_wf(&*puzzle, (#[trigger] expanded@[k])@),
                    forall|k: int|
                        0 <= k < expanded@.len() ==> (#[trigger] expanded@[k])@.affected
                            <= opts.max_affected_pieces,
                decreases repeats@.len() - j,
            {
                proof {
                    assert(repeats@[j as int]@ == MetaMove::repeat_view(v, (j + 2) as nat));
                    if repeats@[j as int]@.affected <= bound {
                        assert(outer_before + repeats_of(v, (j + 2) as nat, bound) =~= (
                        outer_before + repeats_of(v, (j + 1) as nat, bound)).push(
                            repeats@[j as int]@,
                        ));
                    } else {
                        assert(outer_before + repeats_of(v, (j + 2) as nat, bound)
                            =~= outer_before + repeats_of(v, (j + 1) as nat, bound));
                    }
                }
                let ghost before_push = views_of(expanded@);
                if repeats[j].num_affected_pieces <= opts.max_affected_pieces {
                    expanded.push(repeats[j].duplicate());
                    proof {
                        assert(views_of(expanded@) =~= before_push.push(repeats@[j as int]@));
                    }
                }
                j += 1;
            }
            proof {
                assert(views_of(expanded@) == outer_before + repeats_of(v, reps, bound));
            }
            let ghost before_self = views_of(expanded@);
            if deduped[i].num_affected_pieces <= opts.max_affected_pieces {
                expanded.push(deduped[i].duplicate());
                proof {
                    assert(views_of(expanded@) =~= before_self.push(v));
                }
            }
            proof {
                assert(deduped_spec.take(i + 1).drop_last() =~= deduped_spec.take(i as int));
                assert(deduped_spec.take(i + 1).last() == v);
                if v.affected <= bound {
                    assert(views_of(expanded@) =~= (outer_before + repeats_of(v, reps, bound)).push(
                        v,
                    ));
                    assert(expand_with_repeats(deduped_spec.take(i + 1), reps, bound)
                        =~= (expand_with_repeats(deduped_spec.take(i as int), reps, bound)
                        + repeats_of(v, reps, bound)).push(v));
                } else {
                    assert(expand_with_repeats(deduped_spec.take(i + 1), reps, bound)
                        =~= expand_with_repeats(deduped_spec.take(i as int), reps, bound)
                        + repeats_of(v, reps, bound));
                }
                assert(views_of(expanded@) == expand_with_repeats(
                    deduped_spec.take(i + 1),
                    reps,
                    bound,
                ));
            }
            i += 1;
        }
        let ghost expanded_spec = expand_with_repeats(deduped_spec, reps, bound);
        proof {
            assert(deduped_spec.take(deduped_spec.len() as int) =~= deduped_spec);
            assert(views_of(expanded@) == expanded_spec);
        }
        let library = filter_duplicates(expanded);
        proof {
            assert forall|k: int| 0 <= k < library@.len() implies mm_wf(
                &*puzzle,
                (#[trigger] library@[k])@,
            ) && (#[trigger] library@[k])@.affected <= opts.max_affected_pieces by {
                assert(views_of(library@)[k] == library@[k]@);
                let x = library@[k]@;
                let q = choose|q: int|
                    0 <= q < views_of(expanded@).len() && views_of(expanded@)[q] == x;
                assert(views_of(expanded@)[q] == expanded@[q]@);
            }
        }
        let library = sort_metamoves(library);
        proof {
            assert forall|k: int| 0 <= k < library@.len() implies mm_wf(
                &*puzzle,
                (#[trigger] library@[k])@,
            ) && (#[trigger] library@[k])@.affected <= opts.max_affected_pieces by {
                let x = library@[k]@;
                let q = choose|q: int|
                    0 <= q < views_of(expanded@).len() && views_of(expanded@)[q] == x;
            }
        }
        if library.len() == 0 {
            return None;
        }
        Some(
            MetaMoveSolver {
                depth: opts.metamove_depth,
                phase: SolvePhase::Search,
                metamoves: library,
                puzzle,
                state: initial_state,
                buffered_turns: Vec::new(),
                opts,
            },
        )
    }

    /// One pull. Buffered turns are yielded first without re-searching; the
    /// search phase tries the configured raw-turn depths in order and falls
    /// through, for good, to the metamove phase when none improves the
    /// score; the metamove phase searches the library and signals
    /// exhaustion when nothing improves.
    pub fn advance(&mut self) -> (r: Option<usize>)
        requires
            old(self).inv(),
        ensures
            final(self).inv(),
            final(self).puzzle == old(self).puzzle,
            final(self).metamoves == old(self).metamoves,
            final(self).depth == old(self).depth,
            final(self).opts == old(self).opts,
            match r {
                Some(t) => t < (*old(self).puzzle).spec_num_turns(),
                None => true,
            },
            old(self).buffered_turns@.len() > 0 ==> {
                let t = old(self).buffered_turns@[0];
                &&& r == Some(t)
                &&& final(self).buffered_turns@ == old(self).buffered_turns@.drop_first()
                &&& final(self).state@ == apply_map(
                    old(self).state@,
                    (*old(self).puzzle).spec_turns()[t as int].face_map@,
                )
                &&& final(self).phase == old(self).phase
            },
            (old(self).buffered_turns@.len() == 0 && old(self).phase is Search)
                ==> search_phase_post(
                &*old(self).puzzle,
                old(self).state@,
                views_of(old(self).metamoves@),
                old(self).opts,
                old(self).depth as nat,
                final(self).state@,
                final(self).buffered_turns@,
                final(self).phase,
                r,
            ),
            (old(self).buffered_turns@.len() == 0 && old(self).phase is Metamoves) ==> {
                &&& metamove_phase_post(
                    &*old(self).puzzle,
                    old(self).state@,
                    views_of(old(self).metamoves@),
                    old(self).depth as nat,
                    final(self).state@,
                    final(self).buffered_turns@,
                    r,
                )
                &&& final(self).phase is Metamoves
            },
    {
        if self.buffered_turns.len() > 0 {
            let next_turn = self.buffered_turns.remove(0);
            proof {
                assert(self.buffered_turns@ =~= old(self).buffered_turns@.drop_first());
            }
            let new_state = self.puzzle.get_derived_state_turn_index(&self.state, next_turn);
            self.state = new_state;
            return Some(next_turn);
        }
        if matches!(self.phase, SolvePhase::Search) {
            let singles = single_turn_metamoves(&self.puzzle);
            let ghost p = &*old(self).puzzle;
            let dmin = self.opts.search_min_depth;
            let dmax = self.opts.search_max_depth;
            let mut d = dmin;
            while d <= dmax
                invariant
                    dmin <= d <= dmax + 1,
                    dmax < usize::MAX,
                    *self == *old(self),
                    old(self).inv(),
                    old(self).buffered_turns@.len() == 0,
                    old(self).phase is Search,
                    dmin == old(self).opts.search_min_depth,
                    dmax == old(self).opts.search_max_depth,
                    p == &*old(self).puzzle,
                    views_of(singles@) == single_turn_views(p),
                    forall|k: int|
                        0 <= k < singles@.len() ==> mm_wf(p, (#[trigger] singles@[k])@),
                    forall|e: nat|
                        dmin <= e < d ==> (#[trigger] best_outcome(
                            p,
                            old(self).state@,
                            single_turn_views(p),
                            e,
                            true,
                            false,
                        )).best.affected == 0,
                decreases dmax + 1 - d,
            {
                let best = best_search(&self.puzzle, &self.state, &singles, d, true, false);
                if best.num_affected_pieces != 0 {
                    proof {
                        lemma_search_choice_skip(
                            p,
                            old(self).state@,
                            single_turn_views(p),
                            dmin as nat,
                            d as nat,
                            dmax as nat,
                        );
                        lemma_nonzero_affected_turns(p, best@);
                    }
                    let first_turn = best.turns[0];
                    let new_state = self.puzzle.get_derived_state_turn_index(
                        &self.state,
                        first_turn,
                    );
                    self.state = new_state;
                    self.buffered_turns = vec_tail(&best.turns);
                    return Some(first_turn);
                }
                d += 1;
            }
            proof {
                lemma_search_choice_skip(
                    p,
                    old(self).state@,
                    single_turn_views(p),
                    dmin as nat,
                    (dmax + 1) as nat,
                    dmax as nat,
                );
            }
            self.phase = SolvePhase::Metamoves;
        }
        let best = find_best_metamove(
            Rc::clone(&self.puzzle),
            &self.state,
            &self.metamoves,
            self.depth,
        );
        if best.turns.len() == 0 {
            return None;
        }
        let first_turn = best.turns[0];
        let new_state = self.puzzle.get_derived_state_turn_index(&self.state, first_turn);
        self.state = new_state;
        self.buffered_turns = vec_tail(&best.turns);
        Some(first_turn)
    }
}

impl ScrambleSolver for MetaMoveSolver {
    type Opts = MetaMoveSolverOpts;

    open spec fn spec_puzzle(&self) -> TwistyPuzzle {
        *self.puzzle
    }

    open spec fn spec_state(&self) -> Seq<usize> {
        self.state@
    }

    open spec fn wf(&self) -> bool {
        self.inv()
    }

    fn new(puzzle: Rc<TwistyPuzzle>, initial_state: PuzzleState, opts: MetaMoveSolverOpts) -> (r:
        Option<Self>) {
        Self::build(puzzle, initial_state, opts)
    }

    fn get_state(&self) -> (r: &PuzzleState) {
        &self.state
    }

    fn next(&mut self) -> (r: Option<usize>) {
        self.advance()
    }
}

} // verus!
