//! The metamove discovery and combination pipeline: enumerate turn
//! combinations with the traversal engine, keep the cheap ones, deduplicate
//! by net effect, and sort the library by quality.

use vstd::prelude::*;

use crate::metamove::{mm_wf, seq_face_map, MetaMove, MetaMoveView};
use crate::permutation::{count_moved, identity_map, lemma_compose_identity};
use crate::puzzle::{clone_usize_vec, TwistyPuzzle};
use crate::traverse::{
    dfs_nodes, first_stop, run_steps, traverse_combinations, views_of, TraverseResult,
    TraverseVisitor,
};

verus! {

/// The identity metamove's view.
pub open spec fn empty_view(p: &TwistyPuzzle) -> MetaMoveView {
    MetaMoveView {
        turns: Seq::empty(),
        face_map: identity_map(p.spec_num_pieces()),
        affected: 0,
    }
}

/// The views of the puzzle's raw turns taken as one-turn metamoves.
pub open spec fn single_turn_views(p: &TwistyPuzzle) -> Seq<MetaMoveView> {
    Seq::new(
        p.spec_num_turns(),
        |i: int|
            MetaMoveView {
                turns: seq![i as usize],
                face_map: p.spec_turns()[i].face_map@,
                affected: count_moved(p.spec_turns()[i].face_map@),
            },
    )
}

/// The puzzle's raw turns as one-turn metamoves, in turn order.
pub fn single_turn_metamoves(p: &TwistyPuzzle) -> (r: Vec<MetaMove>)
    requires
        p.wf(),
    ensures
        views_of(r@) == single_turn_views(p),
        forall|i: int| 0 <= i < r@.len() ==> mm_wf(p, (#[trigger] r@[i])@),
        r@.len() == p.spec_num_turns(),
{
    let mut r: Vec<MetaMove> = Vec::new();
    let mut i: usize = 0;
    while i < p.get_num_turns()
        invariant
            i <= p.spec_num_turns(),
            p.wf(),
            r@.len() == i,
            forall|k: int| 0 <= k < i ==> mm_wf(p, (#[trigger] r@[k])@),
            forall|k: int| 0 <= k < i ==> (#[trigger] r@[k])@ == single_turn_views(p)[k],
        decreases p.spec_num_turns() - i,
    {
        let mut turns: Vec<usize> = Vec::new();
        turns.push(i);
        let face_map = clone_usize_vec(p.get_turn_face_map(i));
        proof {
            assert(turns@ =~= seq![i]);
            assert(turns@.drop_last() =~= Seq::<usize>::empty());
            assert(turns@.last() == i);
            lemma_compose_identity(p.spec_turns()[i as int].face_map@, p.spec_num_pieces());
            assert(seq_face_map(p, Seq::<usize>::empty()) == identity_map(p.spec_num_pieces()));
            assert(seq_face_map(p, turns@) == p.spec_turns()[i as int].face_map@);
        }
        let mm = MetaMove::new(p, turns, face_map);
        r.push(mm);
        i += 1;
    }
    proof {
        assert(views_of(r@) =~= single_turn_views(p));
    }
    r
}

/// The model of a collecting traversal: the acceptance bound on affected
/// pieces and the metamoves retained so far.
#[verifier::ext_equal]
pub struct CollectModel {
    pub max_affected: nat,
    pub found: Seq<MetaMoveView>,
}

/// A visitor that keeps every visited metamove that displaces at most
/// `max_affected` pieces and never aborts the walk: discovery enumerates,
/// it does not search to a goal.
pub struct CollectVisitor<'a> {
    pub puzzle: &'a TwistyPuzzle,
    pub max_affected: usize,
    pub found: Vec<MetaMove>,
}

impl<'a> TraverseVisitor for CollectVisitor<'a> {
    type Model = CollectModel;

    open spec fn model(&self) -> CollectModel {
        CollectModel { max_affected: self.max_affected as nat, found: views_of(self.found@) }
    }

    open spec fn inv(&self) -> bool {
        forall|i: int| 0 <= i < self.found@.len() ==> mm_wf(self.puzzle, (#[trigger] self.found@[i])@)
    }

    open spec fn puzzle(&self) -> TwistyPuzzle {
        *self.puzzle
    }

    open spec fn step(m: CollectModel, node: MetaMoveView) -> CollectModel {
        if node.affected <= m.max_affected {
            CollectModel { max_affected: m.max_affected, found: m.found.push(node) }
        } else {
            m
        }
    }

    open spec fn stops(m: CollectModel, node: MetaMoveView) -> bool {
        false
    }

    fn visit(&mut self, mm: &MetaMove) -> (r: TraverseResult) {
        if mm.num_affected_pieces <= self.max_affected {
            self.found.push(mm.duplicate());
            proof {
                assert(views_of(self.found@) =~= views_of(old(self).found@).push(mm@));
                assert(self.model() =~= Self::step(old(self).model(), mm@));
            }
        }
        TraverseResult::Continue
    }
}

/// The subsequence of `nodes` whose members displace at most `bound` pieces.
pub open spec fn accepted_of(nodes: Seq<MetaMoveView>, bound: nat) -> Seq<MetaMoveView>
    decreases nodes.len(),
{
    if nodes.len() == 0 {
        Seq::empty()
    } else {
        (if nodes[0].affected <= bound {
            seq![nodes[0]]
        } else {
            Seq::empty()
        }) + accepted_of(nodes.drop_first(), bound)
    }
}

/// Folding a collecting walk appends exactly the accepted nodes.
pub proof fn lemma_collect_run<'a>(m: CollectModel, nodes: Seq<MetaMoveView>)
    ensures
        run_steps::<CollectVisitor<'a>>(m, nodes) == (CollectModel {
            max_affected: m.max_affected,
            found: m.found + accepted_of(nodes, m.max_affected),
        }),
    decreases nodes.len(),
{
    if nodes.len() == 0 {
        assert(m.found + accepted_of(nodes, m.max_affected) =~= m.found);
        assert(run_steps::<CollectVisitor<'a>>(m, nodes) =~= CollectModel {
            max_affected: m.max_affected,
            found: m.found + accepted_of(nodes, m.max_affected),
        });
    } else {
        let m1 = CollectVisitor::step(m, nodes[0]);
        lemma_collect_run(m1, nodes.drop_first());
        assert(m1.found + accepted_of(nodes.drop_first(), m.max_affected) =~= m.found
            + accepted_of(nodes, m.max_affected));
    }
}

/// A collecting walk never aborts.
pub proof fn lemma_collect_never_stops<'a>(m: CollectModel, nodes: Seq<MetaMoveView>)
    ensures
        first_stop::<CollectVisitor<'a>>(m, nodes) is None,
    decreases nodes.len(),
{
    if nodes.len() > 0 {
        lemma_collect_never_stops(CollectVisitor::step(m, nodes[0]), nodes.drop_first());
    }
}

/// Every accepted node displaces at most `bound` pieces and comes from
/// `nodes`.
pub proof fn lemma_accepted_of_members(nodes: Seq<MetaMoveView>, bound: nat)
    ensures
        forall|i: int|
            0 <= i < accepted_of(nodes, bound).len() ==> (#[trigger] accepted_of(nodes, bound)[i]).affected
                <= bound && nodes.contains(accepted_of(nodes, bound)[i]),
    decreases nodes.len(),
{
    if nodes.len() > 0 {
        lemma_accepted_of_members(nodes.drop_first(), bound);
        assert forall|i: int| 0 <= i < accepted_of(nodes, bound).len() implies (
        #[trigger] accepted_of(nodes, bound)[i]).affected <= bound && nodes.contains(
            accepted_of(nodes, bound)[i],
        ) by {
            let acc = accepted_of(nodes, bound);
            let head = if nodes[0].affected <= bound {
                seq![nodes[0]]
            } else {
                Seq::<MetaMoveView>::empty()
            };
            if i < head.len() {
                assert(acc[i] == nodes[0]);
            } else {
                let x = accepted_of(nodes.drop_first(), bound)[i - head.len()];
                assert(acc[i] == x);
                assert(nodes.drop_first().contains(x));
                let k = choose|k: int| 0 <= k < nodes.drop_first().len() && nodes.drop_first()[k] == x;
                assert(nodes[k + 1] == x);
            }
        }
    }
}

/// Runs the traversal engine over the puzzle's raw turns as the candidate
/// pool and returns, in visitation order, every combination of up to
/// `max_depth` turns whose net effect displaces at most `max_affected`
/// pieces. The traversal never aborts: the goal is enumeration.
pub fn discover_metamoves(p: &TwistyPuzzle, max_affected: usize, max_depth: usize) -> (r: Vec<
    MetaMove,
>)
    requires
        p.wf(),
    ensures
        views_of(r@) == accepted_of(
            dfs_nodes(single_turn_views(p), max_depth as nat, empty_view(p)),
            max_affected as nat,
        ),
        forall|i: int| 0 <= i < r@.len() ==> mm_wf(p, (#[trigger] r@[i])@),
        forall|i: int| 0 <= i < r@.len() ==> (#[trigger] r@[i])@.affected <= max_affected,
{
    let pool = single_turn_metamoves(p);
    combine_metamoves(p, &pool, max_affected, max_depth)
}

/// Runs the traversal engine over a previously built metamove set as the
/// candidate pool and returns, in visitation order, every combination of up
/// to `max_depth` of them whose net effect displaces at most `max_affected`
/// pieces.
pub fn combine_metamoves(
    p: &TwistyPuzzle,
    base: &Vec<MetaMove>,
    max_affected: usize,
    max_depth: usize,
) -> (r: Vec<MetaMove>)
    requires
        p.wf(),
        forall|i: int| 0 <= i < base@.len() ==> mm_wf(p, (#[trigger] base@[i])@),
    ensures
        views_of(r@) == accepted_of(
            dfs_nodes(views_of(base@), max_depth as nat, empty_view(p)),
            max_affected as nat,
        ),
        forall|i: int| 0 <= i < r@.len() ==> mm_wf(p, (#[trigger] r@[i])@),
        forall|i: int| 0 <= i < r@.len() ==> (#[trigger] r@[i])@.affected <= max_affected,
{
    let seed = MetaMove::empty(p);
    let mut visitor = CollectVisitor { puzzle: p, max_affected, found: Vec::new() };
    proof {
        assert(seed@ =~= empty_view(p));
        assert(views_of(visitor.found@) =~= Seq::<MetaMoveView>::empty());
    }
    let ghost nodes = dfs_nodes(views_of(base@), max_depth as nat, seed@);
    proof {
        lemma_collect_never_stops(visitor.model(), nodes);
        lemma_collect_run(visitor.model(), nodes);
    }
    traverse_combinations(p, base, max_depth, &seed, &mut visitor);
    proof {
        assert(visitor.found@.len() == views_of(visitor.found@).len());
        assert(Seq::<MetaMoveView>::empty() + accepted_of(nodes, max_affected as nat)
            =~= accepted_of(nodes, max_affected as nat));
        assert(views_of(visitor.found@) == accepted_of(nodes, max_affected as nat));
        lemma_accepted_of_members(nodes, max_affected as nat);
        assert(forall|i: int|
            0 <= i < visitor.found@.len() ==> (#[trigger] visitor.found@[i])@ == views_of(
                visitor.found@,
            )[i]);
    }
    visitor.found
}

/// The smallest index in `acc` whose metamove has net effect `fm`, or
/// `acc.len()` when no retained metamove has that effect.
pub open spec fn first_effect_at(acc: Seq<MetaMoveView>, fm: Seq<usize>) -> int
    decreases acc.len(),
{
    if acc.len() == 0 {
        0
    } else if acc[0].face_map == fm {
        0
    } else {
        1 + first_effect_at(acc.drop_first(), fm)
    }
}

pub proof fn lemma_first_effect_at_char(acc: Seq<MetaMoveView>, fm: Seq<usize>)
    ensures
        0 <= first_effect_at(acc, fm) <= acc.len(),
        first_effect_at(acc, fm) < acc.len() ==> acc[first_effect_at(acc, fm)].face_map == fm,
        forall|k: int| 0 <= k < first_effect_at(acc, fm) ==> (#[trigger] acc[k]).face_map != fm,
    decreases acc.len(),
{
    if acc.len() > 0 && acc[0].face_map != fm {
        lemma_first_effect_at_char(acc.drop_first(), fm);
        assert forall|k: int| 0 <= k < first_effect_at(acc, fm) implies (#[trigger] acc[k]).face_map
            != fm by {
            if k > 0 {
                assert(acc.drop_first()[k - 1] == acc[k]);
            }
        }
    }
}

/// One deduplication step: a metamove whose effect is new is retained; one
/// whose effect is already retained replaces the representative only when it
/// has strictly fewer turns.
pub open spec fn dedup_step(acc: Seq<MetaMoveView>, x: MetaMoveView) -> Seq<MetaMoveView> {
    let k = first_effect_at(acc, x.face_map);
    if k == acc.len() {
        acc.push(x)
    } else if x.turns.len() < acc[k].turns.len() {
        acc.update(k, x)
    } else {
        acc
    }
}

/// The deduplicated library: the metamoves of `s` grouped by net effect, one
/// representative with the fewest turns per distinct effect, processed in
/// order.
pub open spec fn dedup_of(s: Seq<MetaMoveView>) -> Seq<MetaMoveView>
    decreases s.len(),
{
    if s.len() == 0 {
        Seq::empty()
    } else {
        dedup_step(dedup_of(s.drop_last()), s.last())
    }
}

/// Deduplication is sound: no two retained metamoves share a net effect;
/// every retained metamove is one of the inputs and has the minimum turn
/// count among all inputs sharing its effect; and every input effect is
/// represented.
#[verifier::rlimit(80)]
#[verifier::spinoff_prover]
pub proof fn lemma_dedup_of_sound(s: Seq<MetaMoveView>)
    ensures
        forall|i: int, j: int|
            0 <= i < j < dedup_of(s).len() ==> (#[trigger] dedup_of(s)[i]).face_map != (
            #[trigger] dedup_of(s)[j]).face_map,
        forall|i: int| 0 <= i < dedup_of(s).len() ==> s.contains(#[trigger] dedup_of(s)[i]),
        forall|i: int, x: MetaMoveView|
            0 <= i < dedup_of(s).len() && #[trigger] s.contains(x) && x.face_map == (
            #[trigger] dedup_of(s)[i]).face_map ==> dedup_of(s)[i].turns.len() <= x.turns.len(),
        forall|x: MetaMoveView|
            #[trigger] s.contains(x) ==> exists|i: int|
                0 <= i < dedup_of(s).len() && (#[trigger] dedup_of(s)[i]).face_map == x.face_map,
    decreases s.len(),
{
    if s.len() > 0 {
        let s0 = s.drop_last();
        let x = s.last();
        lemma_dedup_of_sound(s0);
        let acc = dedup_of(s0);
        let d = dedup_of(s);
        let k = first_effect_at(acc, x.face_map);
        lemma_first_effect_at_char(acc, x.face_map);
        assert forall|y: MetaMoveView| #[trigger] s.contains(y) implies s0.contains(y) || y == x by {
            let q = choose|q: int| 0 <= q < s.len() && s[q] == y;
            if q < s.len() - 1 {
                assert(s0[q] == y);
            }
        }
        assert forall|y: MetaMoveView| s0.contains(y) implies #[trigger] s.contains(y) by {
            let q = choose|q: int| 0 <= q < s0.len() && s0[q] == y;
            assert(s[q] == y);
        }
        assert(s.contains(x)) by {
            assert(s[s.len() - 1] == x);
        }
        if k == acc.len() {
            // the effect is new: x is appended
            assert(d == acc.push(x));
            assert forall|i: int| 0 <= i < d.len() implies s.contains(#[trigger] d[i]) by {
                if i < acc.len() {
                    assert(d[i] == acc[i]);
                } else {
                    assert(d[i] == x);
                }
            }
            // no input in s0 shares x's effect, else its representative would
            assert forall|y: MetaMoveView| s0.contains(y) implies y.face_map != x.face_map by {
                if y.face_map == x.face_map {
                    let i = choose|i: int|
                        0 <= i < acc.len() && (#[trigger] acc[i]).face_map == y.face_map;
                    assert(acc[i].face_map == x.face_map);
                }
            }
            assert forall|i: int, y: MetaMoveView|
                0 <= i < d.len() && #[trigger] s.contains(y) && y.face_map == (
                #[trigger] d[i]).face_map implies d[i].turns.len() <= y.turns.len() by {
                if i < acc.len() {
                    assert(d[i] == acc[i]);
                    assert(y != x);
                } else {
                    assert(d[i] == x);
                    assert(y == x);
                }
            }
            assert forall|y: MetaMoveView| #[trigger] s.contains(y) implies exists|i: int|
                0 <= i < d.len() && (#[trigger] d[i]).face_map == y.face_map by {
                if y == x {
                    assert(d[d.len() - 1].face_map == y.face_map);
                } else {
                    let i = choose|i: int|
                        0 <= i < acc.len() && (#[trigger] acc[i]).face_map == y.face_map;
                    assert(d[i].face_map == y.face_map);
                }
            }
        } else if x.turns.len() < acc[k].turns.len() {
            // x displaces the representative of its effect
            assert(d == acc.update(k, x));
            assert(acc[k].face_map == x.face_map);
            assert forall|i: int| 0 <= i < d.len() implies s.contains(#[trigger] d[i]) by {
                if i != k {
                    assert(d[i] == acc[i]);
                }
            }
            assert forall|i: int, j: int|
                0 <= i < j < d.len() implies (#[trigger] d[i]).face_map != (
                #[trigger] d[j]).face_map by {
                assert(acc[i].face_map == d[i].face_map);
                assert(acc[j].face_map == d[j].face_map);
            }
            assert forall|i: int, y: MetaMoveView|
                0 <= i < d.len() && #[trigger] s.contains(y) && y.face_map == (
                #[trigger] d[i]).face_map implies d[i].turns.len() <= y.turns.len() by {
                if y == x {
                    if i != k {
                        assert(d[i] == acc[i]);
                        assert(acc[i].face_map != acc[k].face_map);
                    }
                } else {
                    assert(s0.contains(y));
                    if i == k {
                        assert(acc[k].turns.len() <= y.turns.len());
                    } else {
                        assert(d[i] == acc[i]);
                    }
                }
            }
            assert forall|y: MetaMoveView| #[trigger] s.contains(y) implies exists|i: int|
                0 <= i < d.len() && (#[trigger] d[i]).face_map == y.face_map by {
                if y == x {
                    assert(d[k].face_map == y.face_map);
                } else {
                    let i = choose|i: int|
                        0 <= i < acc.len() && (#[trigger] acc[i]).face_map == y.face_map;
                    assert(d[i].face_map == y.face_map);
                }
            }
        } else {
            // the retained representative already has no more turns
            assert(d == acc);
            assert(acc[k].face_map == x.face_map);
            assert forall|i: int, y: MetaMoveView|
                0 <= i < d.len() && #[trigger] s.contains(y) && y.face_map == (
                #[trigger] d[i]).face_map implies d[i].turns.len() <= y.turns.len() by {
                if y == x {
                    if i == k {
                        assert(acc[k].turns.len() <= x.turns.len());
                    } else {
                        assert(acc[i].face_map != acc[k].face_map);
                    }
                }
            }
            assert forall|y: MetaMoveView| #[trigger] s.contains(y) implies exists|i: int|
                0 <= i < d.len() && (#[trigger] d[i]).face_map == y.face_map by {
                if y == x {
                    assert(d[k].face_map == y.face_map);
                } else {
                    let i = choose|i: int|
                        0 <= i < acc.len() && (#[trigger] acc[i]).face_map == y.face_map;
                    assert(d[i].face_map == y.face_map);
                }
            }
        }
    }
}

/// Whether two position maps are the same map.
pub fn usize_vecs_equal(a: &Vec<usize>, b: &Vec<usize>) -> (r: bool)
    ensures
        r == (a@ == b@),
{
    if a.len() != b.len() {
        return false;
    }
    let mut i: usize = 0;
    while i < a.len()
        invariant
            i <= a@.len(),
            a@.len() == b@.len(),
            forall|k: int| 0 <= k < i ==> a@[k] == b@[k],
        decreases a@.len() - i,
    {
        if a[i] != b[i] {
            return false;
        }
        i += 1;
    }
    proof {
        assert(a@ =~= b@);
    }
    true
}

/// The index of the first retained metamove sharing this net effect, or the
/// library's length when the effect is new.
fn find_effect_vec(out: &Vec<MetaMove>, fm: &Vec<usize>) -> (r: usize)
    ensures
        r as int == first_effect_at(views_of(out@), fm@),
{
    let ghost acc = views_of(out@);
    proof {
        lemma_first_effect_at_char(acc, fm@);
    }
    let mut j: usize = 0;
    while j < out.len()
        invariant
            j <= out@.len(),
            acc == views_of(out@),
            forall|k: int| 0 <= k < j ==> (#[trigger] acc[k]).face_map != fm@,
            0 <= first_effect_at(acc, fm@) <= acc.len(),
            first_effect_at(acc, fm@) < acc.len() ==> acc[first_effect_at(acc, fm@)].face_map
                == fm@,
            forall|k: int| 0 <= k < first_effect_at(acc, fm@) ==> (#[trigger] acc[k]).face_map
                != fm@,
        decreases out@.len() - j,
    {
        if usize_vecs_equal(&out[j].face_map, fm) {
            proof {
                assert(acc[j as int].face_map == fm@);
            }
            return j;
        }
        j += 1;
    }
    out.len()
}

/// Groups the metamoves by net effect and keeps, per distinct effect, the
/// representative with the fewest turns: two metamoves with identical net
/// effect are interchangeable for solving, so the one costing fewer turns
/// wins. After it, no two retained metamoves share a face map, each retained
/// metamove is one of the inputs with the minimum turn count among the
/// inputs sharing its effect, and every input effect stays represented.
pub fn filter_duplicates(metamoves: Vec<MetaMove>) -> (r: Vec<MetaMove>)
    ensures
        views_of(r@) == dedup_of(views_of(metamoves@)),
        forall|i: int, j: int|
            0 <= i < j < r@.len() ==> (#[trigger] r@[i])@.face_map != (#[trigger] r@[j])@.face_map,
        forall|i: int|
            0 <= i < r@.len() ==> views_of(metamoves@).contains(#[trigger] r@[i]@),
        forall|i: int, x: MetaMoveView|
            0 <= i < r@.len() && #[trigger] views_of(metamoves@).contains(x) && x.face_map == (
            #[trigger] r@[i])@.face_map ==> r@[i]@.turns.len() <= x.turns.len(),
        forall|x: MetaMoveView|
            #[trigger] views_of(metamoves@).contains(x) ==> exists|i: int|
                0 <= i < r@.len() && (#[trigger] r@[i])@.face_map == x.face_map,
{
    let ghost input = views_of(metamoves@);
    let mut out: Vec<MetaMove> = Vec::new();
    let mut i: usize = 0;
    proof {
        assert(views_of(out@) =~= dedup_of(input.take(0)));
    }
    while i < metamoves.len()
        invariant
            i <= metamoves@.len(),
            input == views_of(metamoves@),
            views_of(out@) == dedup_of(input.take(i as int)),
        decreases metamoves@.len() - i,
    {
        let ghost acc = views_of(out@);
        let mm = &metamoves[i];
        let k = find_effect_vec(&out, &mm.face_map);
        proof {
            assert(input.take(i + 1).drop_last() =~= input.take(i as int));
            assert(input.take(i + 1).last() == input[i as int]);
            assert(input[i as int] == mm@);
        }
        if k == out.len() {
            out.push(mm.duplicate());
            proof {
                assert(views_of(out@) =~= acc.push(mm@));
            }
        } else {
            proof {
                lemma_first_effect_at_char(acc, mm@.face_map);
            }
            if mm.turns.len() < out[k].turns.len() {
                out.set(k, mm.duplicate());
                proof {
                    assert(views_of(out@) =~= acc.update(k as int, mm@));
                }
            }
        }
        i += 1;
    }
    proof {
        assert(input.take(metamoves@.len() as int) =~= input);
        lemma_dedup_of_sound(input);
        assert(forall|i: int|
            0 <= i < out@.len() ==> (#[trigger] out@[i])@ == views_of(out@)[i]);
    }
    out
}

/// A metamove is at least as good as another when it displaces fewer pieces,
/// or as many with no more turns: the ordering that defines "better" for
/// selection and for library order.
pub open spec fn mm_quality_le(a: MetaMoveView, b: MetaMoveView) -> bool {
    a.affected < b.affected || (a.affected == b.affected && a.turns.len() <= b.turns.len())
}

/// Whether `a` is at least as good as `b`.
pub fn quality_le(a: &MetaMove, b: &MetaMove) -> (r: bool)
    ensures
        r == mm_quality_le(a@, b@),
{
    a.num_affected_pieces < b.num_affected_pieces || (a.num_affected_pieces
        == b.num_affected_pieces && a.turns.len() <= b.turns.len())
}

/// Sorts a metamove library by quality: fewest affected pieces first, then
/// fewest turns. The result holds exactly the input metamoves.
pub fn sort_metamoves(v: Vec<MetaMove>) -> (r: Vec<MetaMove>)
    ensures
        forall|i: int, j: int|
            0 <= i < j < r@.len() ==> mm_quality_le(#[trigger] r@[i]@, #[trigger] r@[j]@),
        views_of(r@).to_multiset() == views_of(v@).to_multiset(),
        r@.len() == v@.len(),
        forall|i: int| 0 <= i < r@.len() ==> views_of(v@).contains(#[trigger] r@[i]@),
{
    broadcast use vstd::seq_lib::group_to_multiset_ensures;
    broadcast use vstd::multiset::group_multiset_axioms;

    let ghost input = views_of(v@);
    let mut rem = v;
    let mut out: Vec<MetaMove> = Vec::new();
    proof {
        assert(views_of(out@) =~= Seq::<MetaMoveView>::empty());
        assert(views_of(out@).to_multiset().add(views_of(rem@).to_multiset()) =~= input.to_multiset());
    }
    while rem.len() > 0
        invariant
            views_of(out@).to_multiset().add(views_of(rem@).to_multiset())
                == input.to_multiset(),
            out@.len() + rem@.len() == input.len(),
            forall|i: int, j: int|
                0 <= i < j < out@.len() ==> mm_quality_le(
                    #[trigger] out@[i]@,
                    #[trigger] out@[j]@,
                ),
            forall|i: int, j: int|
                0 <= i < out@.len() && 0 <= j < rem@.len() ==> mm_quality_le(
                    #[trigger] out@[i]@,
                    #[trigger] rem@[j]@,
                ),
        decreases rem@.len(),
    {
        let mut best: usize = 0;
        let mut j: usize = 1;
        while j < rem.len()
            invariant
                rem@.len() > 0,
                best < j <= rem@.len(),
                forall|k: int|
                    0 <= k < j ==> mm_quality_le(rem@[best as int]@, (#[trigger] rem@[k])@),
            decreases rem@.len() - j,
        {
            if quality_le(&rem[j], &rem[best]) {
                best = j;
            }
            j += 1;
        }
        let ghost rem_views = views_of(rem@);
        let ghost out_views = views_of(out@);
        let picked = rem.remove(best);
        out.push(picked);
        proof {
            broadcast use vstd::multiset::group_multiset_axioms;

            assert(views_of(out@) =~= out_views.push(picked@));
            assert(views_of(rem@) =~= rem_views.remove(best as int));
            assert(rem_views[best as int] == picked@);
            vstd::seq_lib::to_multiset_build::<MetaMoveView>(out_views, picked@);
            vstd::seq_lib::to_multiset_remove::<MetaMoveView>(rem_views, best as int);
            assert(rem_views.contains(picked@));
            vstd::seq_lib::to_multiset_contains::<MetaMoveView>(rem_views, picked@);
            assert(rem_views.to_multiset().count(picked@) > 0);
            assert(views_of(out@).to_multiset().add(views_of(rem@).to_multiset())
                =~= out_views.to_multiset().add(rem_views.to_multiset()));
        }
    }
    proof {
        assert(views_of(rem@).len() == 0);
        assert forall|i: int| 0 <= i < out@.len() implies views_of(v@).contains(
            #[trigger] out@[i]@,
        ) by {
            assert(views_of(out@)[i] == out@[i]@);
            assert(views_of(out@).contains(out@[i]@));
            vstd::seq_lib::to_multiset_contains::<MetaMoveView>(views_of(out@), out@[i]@);
            assert(views_of(out@).to_multiset().count(out@[i]@) > 0);
            assert(views_of(out@).to_multiset().add(views_of(rem@).to_multiset()).count(out@[i]@)
                > 0);
            vstd::seq_lib::to_multiset_contains::<MetaMoveView>(input, out@[i]@);
        }
    }
    out
}

/// An element of a metamove sequence whose view is contained among the
/// views of a well-formed pool is itself well formed.
pub proof fn lemma_contained_view_wf(p: &TwistyPuzzle, s: Seq<MetaMove>, x: MetaMoveView)
    requires
        forall|k: int| 0 <= k < s.len() ==> mm_wf(p, (#[trigger] s[k])@),
        views_of(s).contains(x),
    ensures
        mm_wf(p, x),
{
    let k = choose|k: int| 0 <= k < views_of(s).len() && views_of(s)[k] == x;
    assert(views_of(s)[k] == s[k]@);
}

} // verus!
