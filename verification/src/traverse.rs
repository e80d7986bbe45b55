//! The combination traversal engine: a depth-bounded, depth-first enumerator
//! of every way of extending an accumulated metamove by one more candidate
//! drawn from a fixed pool, visiting a visitor once per node and letting the
//! visitor abort the whole walk.

use vstd::prelude::*;

use crate::metamove::{combine_views, mm_wf, MetaMove, MetaMoveView};
use crate::puzzle::TwistyPuzzle;

verus! {

/// The visitor's verdict on one node: keep exploring, or abort the entire
/// traversal immediately.
pub enum TraverseResult {
    Continue,
    Break,
}

/// A traversal visitor. Its exec state is abstracted by a model; each visit
/// advances the model by the pure transition `step`, and the visitor breaks
/// exactly when `stops` holds of the model it saw before the node. This pins
/// the whole traversal down as a fold, which makes the walk deterministic.
pub trait TraverseVisitor: Sized {
    type Model;

    /// The abstraction of the visitor's current state.
    spec fn model(&self) -> Self::Model;

    /// The visitor's internal well-formedness.
    spec fn inv(&self) -> bool;

    /// The puzzle whose well-formed metamoves this visitor accepts.
    spec fn puzzle(&self) -> TwistyPuzzle;

    /// How one visited node advances the model.
    spec fn step(m: Self::Model, node: MetaMoveView) -> Self::Model;

    /// Whether the visitor aborts the traversal at this node.
    spec fn stops(m: Self::Model, node: MetaMoveView) -> bool;

    fn visit(&mut self, mm: &MetaMove) -> (r: TraverseResult)
        requires
            old(self).inv(),
            mm_wf(&old(self).puzzle(), mm@),
        ensures
            final(self).inv(),
            final(self).puzzle() == old(self).puzzle(),
            final(self).model() == Self::step(old(self).model(), mm@),
            (r is Break) <==> Self::stops(old(self).model(), mm@),
    ;
}

/// The views of a pool of metamoves.
pub open spec fn views_of(pool: Seq<MetaMove>) -> Seq<MetaMoveView> {
    pool.map_values(|m: MetaMove| m@)
}

/// The nodes visited, in order, when the walk from `seed` explores the
/// candidates with index at least `i` at the current level and the whole pool
/// at every deeper level. Each candidate contributes the combined node and
/// then its entire subtree, depth first.
pub open spec fn dfs_from(
    pool: Seq<MetaMoveView>,
    depth: nat,
    seed: MetaMoveView,
    i: nat,
) -> Seq<MetaMoveView>
    decreases depth, pool.len() - i,
{
    if depth == 0 || i >= pool.len() {
        Seq::empty()
    } else {
        let c = combine_views(seed, pool[i as int]);
        seq![c] + dfs_from(pool, (depth - 1) as nat, c, 0) + dfs_from(pool, depth, seed, i + 1)
    }
}

/// The complete visitation order of the traversal: every combination of
/// between one and `depth` candidates from `pool`, folded onto `seed`, in
/// depth-first order with candidates taken in pool order at every level.
pub open spec fn dfs_nodes(pool: Seq<MetaMoveView>, depth: nat, seed: MetaMoveView) -> Seq<
    MetaMoveView,
> {
    dfs_from(pool, depth, seed, 0)
}

/// The nodes contributed by the candidates with index below `i`.
pub open spec fn dfs_upto(
    pool: Seq<MetaMoveView>,
    depth: nat,
    seed: MetaMoveView,
    i: nat,
) -> Seq<MetaMoveView>
    decreases i,
{
    if i == 0 || depth == 0 || i > pool.len() {
        Seq::empty()
    } else {
        let c = combine_views(seed, pool[i - 1]);
        dfs_upto(pool, depth, seed, (i - 1) as nat) + (seq![c] + dfs_from(
            pool,
            (depth - 1) as nat,
            c,
            0,
        ))
    }
}

/// The model after folding every node of `nodes`, in order, through `step`.
pub open spec fn run_steps<V: TraverseVisitor>(m: V::Model, nodes: Seq<MetaMoveView>) -> V::Model
    decreases nodes.len(),
{
    if nodes.len() == 0 {
        m
    } else {
        run_steps::<V>(V::step(m, nodes[0]), nodes.drop_first())
    }
}

/// The index of the node at which the visitor first breaks, if the walk over
/// `nodes` ever breaks.
pub open spec fn first_stop<V: TraverseVisitor>(m: V::Model, nodes: Seq<MetaMoveView>) -> Option<
    int,
>
    decreases nodes.len(),
{
    if nodes.len() == 0 {
        None
    } else if V::stops(m, nodes[0]) {
        Some(0int)
    } else {
        match first_stop::<V>(V::step(m, nodes[0]), nodes.drop_first()) {
            Some(j) => Some(j + 1),
            None => None,
        }
    }
}

/// Folding a concatenation folds the pieces in order.
pub proof fn lemma_run_steps_concat<V: TraverseVisitor>(
    m: V::Model,
    s1: Seq<MetaMoveView>,
    s2: Seq<MetaMoveView>,
)
    ensures
        run_steps::<V>(m, s1 + s2) == run_steps::<V>(run_steps::<V>(m, s1), s2),
    decreases s1.len(),
{
    if s1.len() == 0 {
        assert(s1 + s2 =~= s2);
    } else {
        assert((s1 + s2)[0] == s1[0]);
        assert((s1 + s2).drop_first() =~= s1.drop_first() + s2);
        lemma_run_steps_concat::<V>(V::step(m, s1[0]), s1.drop_first(), s2);
    }
}

/// Where a concatenated walk first breaks: in the first piece if it breaks
/// there, else in the second piece, offset by the first piece's length.
pub proof fn lemma_first_stop_concat<V: TraverseVisitor>(
    m: V::Model,
    s1: Seq<MetaMoveView>,
    s2: Seq<MetaMoveView>,
)
    ensures
        first_stop::<V>(m, s1 + s2) == match first_stop::<V>(m, s1) {
            Some(i) => Some(i),
            None => match first_stop::<V>(run_steps::<V>(m, s1), s2) {
                Some(j) => Some(s1.len() + j),
                None => None::<int>,
            },
        },
    decreases s1.len(),
{
    if s1.len() == 0 {
        assert(s1 + s2 =~= s2);
    } else {
        assert((s1 + s2)[0] == s1[0]);
        assert((s1 + s2).drop_first() =~= s1.drop_first() + s2);
        lemma_first_stop_concat::<V>(V::step(m, s1[0]), s1.drop_first(), s2);
    }
}

/// The processed prefix and the unprocessed suffix together make the whole
/// level.
pub proof fn lemma_dfs_split(pool: Seq<MetaMoveView>, depth: nat, seed: MetaMoveView, i: nat)
    requires
        i <= pool.len(),
        depth >= 1,
    ensures
        dfs_upto(pool, depth, seed, i) + dfs_from(pool, depth, seed, i) == dfs_from(
            pool,
            depth,
            seed,
            0,
        ),
    decreases i,
{
    if i == 0 {
        assert(dfs_upto(pool, depth, seed, 0) + dfs_from(pool, depth, seed, 0) =~= dfs_from(
            pool,
            depth,
            seed,
            0,
        ));
    } else {
        lemma_dfs_split(pool, depth, seed, (i - 1) as nat);
        let c = combine_views(seed, pool[i - 1]);
        let seg = seq![c] + dfs_from(pool, (depth - 1) as nat, c, 0);
        assert(dfs_from(pool, depth, seed, (i - 1) as nat) =~= seg + dfs_from(pool, depth, seed, i));
        assert(dfs_upto(pool, depth, seed, i) + dfs_from(pool, depth, seed, i) =~= dfs_upto(
            pool,
            depth,
            seed,
            (i - 1) as nat,
        ) + (seg + dfs_from(pool, depth, seed, i)));
        assert(dfs_upto(pool, depth, seed, (i - 1) as nat) + (seg + dfs_from(pool, depth, seed, i))
            =~= (dfs_upto(pool, depth, seed, (i - 1) as nat) + seg) + dfs_from(pool, depth, seed, i));
        assert(dfs_upto(pool, depth, seed, (i - 1) as nat) + seg =~= dfs_upto(pool, depth, seed, i));
    }
}

/// The first break point lies inside the walk.
pub proof fn lemma_first_stop_in_bounds<V: TraverseVisitor>(m: V::Model, nodes: Seq<MetaMoveView>)
    ensures
        match first_stop::<V>(m, nodes) {
            Some(i) => 0 <= i < nodes.len(),
            None => true,
        },
    decreases nodes.len(),
{
    if nodes.len() > 0 && !V::stops(m, nodes[0]) {
        lemma_first_stop_in_bounds::<V>(V::step(m, nodes[0]), nodes.drop_first());
    }
}

/// One step of the fold.
proof fn lemma_run_single<V: TraverseVisitor>(m: V::Model, node: MetaMoveView)
    ensures
        run_steps::<V>(m, seq![node]) == V::step(m, node),
{
    assert(seq![node].drop_first() =~= Seq::<MetaMoveView>::empty());
    assert(run_steps::<V>(V::step(m, node), seq![node].drop_first()) == V::step(m, node));
}

/// The first break point is the least index whose node stops the visitor,
/// given the model folded over everything before it: the visitor stops at
/// the break point, and at no node before it. With the engine's contract
/// this pins the break semantics: once a visit breaks, no later node of the
/// visitation order is visited.
pub proof fn lemma_first_stop_least<V: TraverseVisitor>(
    m: V::Model,
    nodes: Seq<MetaMoveView>,
    j: int,
)
    requires
        0 <= j < nodes.len(),
    ensures
        first_stop::<V>(m, nodes) == Some(j) ==> V::stops(
            run_steps::<V>(m, nodes.take(j)),
            nodes[j],
        ),
        (match first_stop::<V>(m, nodes) {
            Some(i) => j < i,
            None => true,
        }) ==> !V::stops(run_steps::<V>(m, nodes.take(j)), nodes[j]),
    decreases nodes.len(),
{
    lemma_first_stop_in_bounds::<V>(m, nodes);
    let m1 = V::step(m, nodes[0]);
    let d = nodes.drop_first();
    lemma_first_stop_in_bounds::<V>(m1, d);
    if j == 0 {
        assert(nodes.take(0) =~= Seq::<MetaMoveView>::empty());
    } else if !V::stops(m, nodes[0]) {
        lemma_first_stop_least::<V>(m1, d, j - 1);
        assert(nodes.take(j)[0] == nodes[0]);
        assert(nodes.take(j).drop_first() =~= d.take(j - 1));
        assert(run_steps::<V>(m, nodes.take(j)) == run_steps::<V>(m1, d.take(j - 1)));
        assert(d[j - 1] == nodes[j]);
    }
}

/// Runs the traversal: visits, in depth-first order, every combination of
/// between one and `max_depth` candidates from `pool` folded onto `seed`
/// (depth zero, the seed itself, is never visited). The visitor's final
/// model is the fold of the visitation order, cut short at the first node
/// the visitor breaks on; the result says whether the walk was aborted.
pub fn traverse_combinations<V: TraverseVisitor>(
    p: &TwistyPuzzle,
    pool: &Vec<MetaMove>,
    max_depth: usize,
    seed: &MetaMove,
    v: &mut V,
) -> (r: TraverseResult)
    requires
        p.wf(),
        mm_wf(p, seed@),
        forall|i: int| 0 <= i < pool@.len() ==> mm_wf(p, (#[trigger] pool@[i])@),
        old(v).inv(),
        old(v).puzzle() == *p,
    ensures
        final(v).inv(),
        final(v).puzzle() == *p,
        ({
            let nodes = dfs_nodes(views_of(pool@), max_depth as nat, seed@);
            match first_stop::<V>(old(v).model(), nodes) {
                None => final(v).model() == run_steps::<V>(old(v).model(), nodes) && r is Continue,
                Some(i) => final(v).model() == run_steps::<V>(old(v).model(), nodes.take(i + 1))
                    && r is Break,
            }
        }),
    decreases max_depth,
{
    let ghost m0 = old(v).model();
    let ghost pv = views_of(pool@);
    if max_depth == 0 {
        return TraverseResult::Continue;
    }
    let mut i: usize = 0;
    while i < pool.len()
        invariant
            i <= pool@.len(),
            p.wf(),
            mm_wf(p, seed@),
            forall|k: int| 0 <= k < pool@.len() ==> mm_wf(p, (#[trigger] pool@[k])@),
            v.inv(),
            v.puzzle() == *p,
            max_depth >= 1,
            pv == views_of(pool@),
            m0 == old(v).model(),
            first_stop::<V>(m0, dfs_upto(pv, max_depth as nat, seed@, i as nat)) is None,
            v.model() == run_steps::<V>(m0, dfs_upto(pv, max_depth as nat, seed@, i as nat)),
        decreases pool@.len() - i,
    {
        let ghost before = dfs_upto(pv, max_depth as nat, seed@, i as nat);
        let ghost m_here = v.model();
        let combined = seed.apply(p, &pool[i]);
        proof {
            assert(pv[i as int] == pool@[i as int]@);
            assert(combined@ == combine_views(seed@, pv[i as int]));
        }
        let ghost rest = dfs_from(pv, (max_depth - 1) as nat, combined@, 0);
        let ghost seg = seq![combined@] + rest;
        let res = v.visit(&combined);
        match res {
            TraverseResult::Break => {
                proof {
                    lemma_break_glue::<V>(m0, before, combined@, rest, m_here);
                    lemma_dfs_split(pv, max_depth as nat, seed@, (i + 1) as nat);
                    assert(dfs_upto(pv, max_depth as nat, seed@, (i + 1) as nat) =~= before + seg);
                    let tail = dfs_from(pv, max_depth as nat, seed@, (i + 1) as nat);
                    lemma_prefix_stop::<V>(m0, before + seg, tail, before.len() as int);
                    assert((before + seg) + tail == dfs_nodes(pv, max_depth as nat, seed@));
                }
                return TraverseResult::Break;
            },
            TraverseResult::Continue => {},
        }
        if max_depth > 1 {
            let res = traverse_combinations(p, pool, max_depth - 1, &combined, v);
            match res {
                TraverseResult::Break => {
                    proof {
                        let m_in = V::step(m_here, combined@);
                        lemma_first_stop_in_bounds::<V>(m_in, rest);
                        let j = first_stop::<V>(m_in, rest).unwrap();
                        lemma_deep_break_glue::<V>(m0, before, combined@, rest, m_here, j);
                        lemma_dfs_split(pv, max_depth as nat, seed@, (i + 1) as nat);
                        assert(dfs_upto(pv, max_depth as nat, seed@, (i + 1) as nat) =~= before
                            + seg);
                        let tail = dfs_from(pv, max_depth as nat, seed@, (i + 1) as nat);
                        lemma_prefix_stop::<V>(m0, before + seg, tail, before.len() + 1 + j);
                        assert((before + seg) + tail == dfs_nodes(pv, max_depth as nat, seed@));
                    }
                    return TraverseResult::Break;
                },
                TraverseResult::Continue => {},
            }
        } else {
            proof {
                assert(rest =~= Seq::<MetaMoveView>::empty());
            }
        }
        proof {
            lemma_continue_glue::<V>(m0, before, combined@, rest, m_here);
            lemma_dfs_split(pv, max_depth as nat, seed@, (i + 1) as nat);
            assert(dfs_upto(pv, max_depth as nat, seed@, (i + 1) as nat) =~= before + (seq![
                combined@,
            ] + rest));
        }
        i += 1;
    }
    proof {
        lemma_dfs_split(pv, max_depth as nat, seed@, pool@.len());
        assert(dfs_upto(pv, max_depth as nat, seed@, pool@.len()) + dfs_from(
            pv,
            max_depth as nat,
            seed@,
            pool@.len(),
        ) =~= dfs_upto(pv, max_depth as nat, seed@, pool@.len()));
    }
    TraverseResult::Continue
}

/// After a clean prefix, a node that stops the visitor is the first stop of
/// the whole walk, and the fold ends right after it.
proof fn lemma_break_glue<V: TraverseVisitor>(
    m0: V::Model,
    before: Seq<MetaMoveView>,
    node: MetaMoveView,
    rest: Seq<MetaMoveView>,
    m_here: V::Model,
)
    requires
        first_stop::<V>(m0, before) is None,
        m_here == run_steps::<V>(m0, before),
        V::stops(m_here, node),
    ensures
        first_stop::<V>(m0, before + (seq![node] + rest)) == Some(before.len() as int),
        V::step(m_here, node) == run_steps::<V>(
            m0,
            (before + (seq![node] + rest)).take(before.len() as int + 1),
        ),
{
    let seg = seq![node] + rest;
    lemma_first_stop_concat::<V>(m0, before, seg);
    assert(seg[0] == node);
    assert(first_stop::<V>(m_here, seg) == Some(0int));
    let taken = (before + seg).take(before.len() as int + 1);
    assert(taken =~= before + seq![node]);
    lemma_run_steps_concat::<V>(m0, before, seq![node]);
    lemma_run_single::<V>(m_here, node);
}

/// After a clean prefix and a clean node, a break inside the node's subtree
/// is the first stop of the whole walk, offset past the prefix and the node.
proof fn lemma_deep_break_glue<V: TraverseVisitor>(
    m0: V::Model,
    before: Seq<MetaMoveView>,
    node: MetaMoveView,
    rest: Seq<MetaMoveView>,
    m_here: V::Model,
    j: int,
)
    requires
        first_stop::<V>(m0, before) is None,
        m_here == run_steps::<V>(m0, before),
        !V::stops(m_here, node),
        first_stop::<V>(V::step(m_here, node), rest) == Some(j),
        0 <= j < rest.len(),
    ensures
        first_stop::<V>(m0, before + (seq![node] + rest)) == Some(before.len() + 1 + j),
        run_steps::<V>(V::step(m_here, node), rest.take(j + 1)) == run_steps::<V>(
            m0,
            (before + (seq![node] + rest)).take(before.len() + 1 + j + 1),
        ),
{
    let seg = seq![node] + rest;
    lemma_first_stop_concat::<V>(m0, before, seg);
    assert(seg[0] == node);
    assert(seg.drop_first() =~= rest);
    assert(first_stop::<V>(m_here, seg) == Some(j + 1));
    let taken = (before + seg).take(before.len() + 1 + j + 1);
    assert(taken =~= (before + seq![node]) + rest.take(j + 1));
    lemma_run_steps_concat::<V>(m0, before + seq![node], rest.take(j + 1));
    lemma_run_steps_concat::<V>(m0, before, seq![node]);
    lemma_run_single::<V>(m_here, node);
    assert(run_steps::<V>(m0, before + seq![node]) == V::step(m_here, node));
}

/// A clean prefix, a clean node and a clean subtree extend the clean prefix.
proof fn lemma_continue_glue<V: TraverseVisitor>(
    m0: V::Model,
    before: Seq<MetaMoveView>,
    node: MetaMoveView,
    rest: Seq<MetaMoveView>,
    m_here: V::Model,
)
    requires
        first_stop::<V>(m0, before) is None,
        m_here == run_steps::<V>(m0, before),
        !V::stops(m_here, node),
        first_stop::<V>(V::step(m_here, node), rest) is None,
    ensures
        first_stop::<V>(m0, before + (seq![node] + rest)) is None,
        run_steps::<V>(m0, before + (seq![node] + rest)) == run_steps::<V>(
            V::step(m_here, node),
            rest,
        ),
{
    let seg = seq![node] + rest;
    lemma_first_stop_concat::<V>(m0, before, seg);
    assert(seg[0] == node);
    assert(seg.drop_first() =~= rest);
    lemma_run_steps_concat::<V>(m0, before, seg);
}

/// A stop inside a prefix of the walk is the stop of the whole walk, and the
/// folds up to it agree.
proof fn lemma_prefix_stop<V: TraverseVisitor>(
    m0: V::Model,
    prefix: Seq<MetaMoveView>,
    tail: Seq<MetaMoveView>,
    i: int,
)
    requires
        0 <= i < prefix.len(),
        first_stop::<V>(m0, prefix) == Some(i),
    ensures
        first_stop::<V>(m0, prefix + tail) == Some(i),
        run_steps::<V>(m0, (prefix + tail).take(i + 1)) == run_steps::<V>(m0, prefix.take(i + 1)),
{
    lemma_first_stop_concat::<V>(m0, prefix, tail);
    assert((prefix + tail).take(i + 1) =~= prefix.take(i + 1));
}

/// Every node of the visitation order is a well-formed metamove when the
/// seed and the pool are.
pub proof fn lemma_dfs_from_wf(
    p: &TwistyPuzzle,
    pool: Seq<MetaMoveView>,
    depth: nat,
    seed: MetaMoveView,
    i: nat,
)
    requires
        p.wf(),
        mm_wf(p, seed),
        forall|k: int| 0 <= k < pool.len() ==> mm_wf(p, #[trigger] pool[k]),
    ensures
        forall|k: int|
            0 <= k < dfs_from(pool, depth, seed, i).len() ==> mm_wf(
                p,
                #[trigger] dfs_from(pool, depth, seed, i)[k],
            ),
    decreases depth, pool.len() - i,
{
    if depth == 0 || i >= pool.len() {
    } else {
        let c = crate::metamove::combine_views(seed, pool[i as int]);
        crate::metamove::lemma_combine_wf(p, seed, pool[i as int]);
        lemma_dfs_from_wf(p, pool, (depth - 1) as nat, c, 0);
        lemma_dfs_from_wf(p, pool, depth, seed, i + 1);
        let sub = dfs_from(pool, (depth - 1) as nat, c, 0);
        let rest = dfs_from(pool, depth, seed, i + 1);
        assert forall|k: int| 0 <= k < dfs_from(pool, depth, seed, i).len() implies mm_wf(
            p,
            #[trigger] dfs_from(pool, depth, seed, i)[k],
        ) by {
            if k == 0 {
                assert(dfs_from(pool, depth, seed, i)[k] == c);
            } else if k < 1 + sub.len() {
                assert(dfs_from(pool, depth, seed, i)[k] == sub[k - 1]);
            } else {
                assert(dfs_from(pool, depth, seed, i)[k] == rest[k - 1 - sub.len()]);
            }
        }
    }
}

} // verus!
