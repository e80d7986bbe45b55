//! A metamove: a sequence of turn indices together with the single composed
//! permutation equivalent to applying those turns in order, and the count of
//! pieces that the composed permutation displaces.

use vstd::prelude::*;

use crate::permutation::{
    apply_map, compose_maps, count_moved, count_moved_vec, identity_map, identity_vec,
    is_permutation, lemma_apply_compose, lemma_compose_identity, lemma_compose_permutation,
    lemma_identity_map, map_in_range, moved_below,
};
use crate::puzzle::TwistyPuzzle;

verus! {

/// The mathematical content of a metamove: the turn indices, the composed
/// face map, and the cached count of displaced positions.
#[verifier::ext_equal]
pub struct MetaMoveView {
    pub turns: Seq<usize>,
    pub face_map: Seq<usize>,
    pub affected: nat,
}

/// The net effect of a turn sequence: the composition of the turns' face
/// maps, in order, starting from the identity map.
pub open spec fn seq_face_map(p: &TwistyPuzzle, turns: Seq<usize>) -> Seq<usize>
    decreases turns.len(),
{
    if turns.len() == 0 {
        identity_map(p.spec_num_pieces())
    } else {
        compose_maps(
            seq_face_map(p, turns.drop_last()),
            p.spec_turns()[turns.last() as int].face_map@,
        )
    }
}

/// Well-formedness of a metamove against its puzzle: every turn index is in
/// range, the face map is exactly the composition of the turns' face maps,
/// and the cached count is derived from the face map.
pub open spec fn mm_wf(p: &TwistyPuzzle, v: MetaMoveView) -> bool {
    &&& forall|i: int| 0 <= i < v.turns.len() ==> (#[trigger] v.turns[i]) < p.spec_num_turns()
    &&& v.face_map == seq_face_map(p, v.turns)
    &&& v.affected == count_moved(v.face_map)
}

/// The result of combining two metamoves: the first applied first.
pub open spec fn combine_views(a: MetaMoveView, b: MetaMoveView) -> MetaMoveView {
    MetaMoveView {
        turns: a.turns + b.turns,
        face_map: compose_maps(a.face_map, b.face_map),
        affected: count_moved(compose_maps(a.face_map, b.face_map)),
    }
}

/// The net effect of a turn sequence is a permutation of the positions.
pub proof fn lemma_seq_face_map_permutation(p: &TwistyPuzzle, turns: Seq<usize>)
    requires
        p.wf(),
        forall|i: int| 0 <= i < turns.len() ==> (#[trigger] turns[i]) < p.spec_num_turns(),
    ensures
        is_permutation(seq_face_map(p, turns), p.spec_num_pieces()),
    decreases turns.len(),
{
    let n = p.spec_num_pieces();
    if turns.len() == 0 {
        lemma_identity_map(p.spec_solved_state(), n);
    } else {
        lemma_seq_face_map_permutation(p, turns.drop_last());
        lemma_compose_permutation(
            seq_face_map(p, turns.drop_last()),
            p.spec_turns()[turns.last() as int].face_map@,
            n,
        );
    }
}

/// Composing the net effects of two turn sequences gives the net effect of
/// their concatenation.
pub proof fn lemma_seq_face_map_concat(p: &TwistyPuzzle, t1: Seq<usize>, t2: Seq<usize>)
    requires
        p.wf(),
        forall|i: int| 0 <= i < t1.len() ==> (#[trigger] t1[i]) < p.spec_num_turns(),
        forall|i: int| 0 <= i < t2.len() ==> (#[trigger] t2[i]) < p.spec_num_turns(),
    ensures
        seq_face_map(p, t1 + t2) == compose_maps(seq_face_map(p, t1), seq_face_map(p, t2)),
    decreases t2.len(),
{
    let n = p.spec_num_pieces();
    lemma_seq_face_map_permutation(p, t1);
    if t2.len() == 0 {
        assert(t1 + t2 =~= t1);
        lemma_compose_identity(seq_face_map(p, t1), n);
    } else {
        lemma_seq_face_map_concat(p, t1, t2.drop_last());
        assert((t1 + t2).drop_last() =~= t1 + t2.drop_last());
        assert((t1 + t2).last() == t2.last());
        lemma_seq_face_map_permutation(p, t2.drop_last());
        let f = seq_face_map(p, t1);
        let g = seq_face_map(p, t2.drop_last());
        let h = p.spec_turns()[t2.last() as int].face_map@;
        assert(is_permutation(h, n));
        crate::permutation::lemma_compose_assoc(f, g, h, n);
    }
}

/// Combining well-formed metamoves yields a well-formed metamove.
pub proof fn lemma_combine_wf(p: &TwistyPuzzle, a: MetaMoveView, b: MetaMoveView)
    requires
        p.wf(),
        mm_wf(p, a),
        mm_wf(p, b),
    ensures
        mm_wf(p, combine_views(a, b)),
    decreases b.turns.len(),
{
    lemma_seq_face_map_concat(p, a.turns, b.turns);
    assert(combine_views(a, b).face_map =~= seq_face_map(p, a.turns + b.turns));
    assert forall|i: int| 0 <= i < (a.turns + b.turns).len() implies (#[trigger] (a.turns
        + b.turns)[i]) < p.spec_num_turns() by {
        if i < a.turns.len() {
            assert((a.turns + b.turns)[i] == a.turns[i]);
        } else {
            assert((a.turns + b.turns)[i] == b.turns[i - a.turns.len()]);
        }
    }
}

/// A metamove's effect is correct: deriving a state from its turn sequence,
/// one turn at a time, reaches exactly the state derived by one application
/// of its composed face map.
pub proof fn lemma_metamove_effect(p: &TwistyPuzzle, s: Seq<usize>, v: MetaMoveView)
    requires
        p.wf(),
        s.len() == p.spec_num_pieces(),
        mm_wf(p, v),
    ensures
        p.spec_derived_from_sequence(s, v.turns) == apply_map(s, v.face_map),
{
    lemma_derived_is_composed(p, s, v.turns);
}

/// Folding turn application over a turn sequence equals one application of
/// the sequence's composed net effect.
pub proof fn lemma_derived_is_composed(p: &TwistyPuzzle, s: Seq<usize>, turns: Seq<usize>)
    requires
        p.wf(),
        s.len() == p.spec_num_pieces(),
        forall|i: int| 0 <= i < turns.len() ==> (#[trigger] turns[i]) < p.spec_num_turns(),
    ensures
        p.spec_derived_from_sequence(s, turns) == apply_map(s, seq_face_map(p, turns)),
    decreases turns.len(),
{
    let n = p.spec_num_pieces();
    if turns.len() == 0 {
        lemma_identity_map(s, n);
    } else {
        lemma_derived_is_composed(p, s, turns.drop_last());
        lemma_seq_face_map_permutation(p, turns.drop_last());
        lemma_apply_compose(
            s,
            seq_face_map(p, turns.drop_last()),
            p.spec_turns()[turns.last() as int].face_map@,
            n,
        );
    }
}

/// A turn sequence plus its composed net permutation and the count of pieces
/// it displaces. The face map is always exactly the composition of the face
/// maps of `turns` in order; `num_affected_pieces` is always derivable from
/// `face_map` and is cached only as a cheap complexity metric.
pub struct MetaMove {
    pub turns: Vec<usize>,
    pub face_map: Vec<usize>,
    pub num_affected_pieces: usize,
}

impl View for MetaMove {
    type V = MetaMoveView;

    open spec fn view(&self) -> MetaMoveView {
        MetaMoveView {
            turns: self.turns@,
            face_map: self.face_map@,
            affected: self.num_affected_pieces as nat,
        }
    }
}

impl MetaMove {
    /// The metamove of the empty turn sequence: the identity effect.
    pub fn empty(p: &TwistyPuzzle) -> (r: MetaMove)
        ensures
            mm_wf(p, r@),
            r@.turns.len() == 0,
            r@.face_map == identity_map(p.spec_num_pieces()),
            r@.affected == 0,
    {
        let n = p.get_num_pieces();
        let face_map = identity_vec(n);
        let num_affected_pieces = count_moved_vec(&face_map);
        proof {
            lemma_moved_identity(face_map@, face_map@.len());
        }
        MetaMove { turns: Vec::new(), face_map, num_affected_pieces }
    }

    /// Builds a metamove from a turn sequence and its already-composed face
    /// map; the caller vouches that the map is the sequence's composition.
    pub fn new(p: &TwistyPuzzle, turns: Vec<usize>, face_map: Vec<usize>) -> (r: MetaMove)
        requires
            p.wf(),
            forall|i: int| 0 <= i < turns@.len() ==> (#[trigger] turns@[i]) < p.spec_num_turns(),
            face_map@ == seq_face_map(p, turns@),
        ensures
            mm_wf(p, r@),
            r@.turns == turns@,
            r@.face_map == face_map@,
    {
        let num_affected_pieces = count_moved_vec(&face_map);
        MetaMove { turns, face_map, num_affected_pieces }
    }

    /// Builds a metamove from a turn sequence alone, composing the face map.
    pub fn new_infer_face_map(p: &TwistyPuzzle, turns: Vec<usize>) -> (r: MetaMove)
        requires
            p.wf(),
            forall|i: int| 0 <= i < turns@.len() ==> (#[trigger] turns@[i]) < p.spec_num_turns(),
        ensures
            mm_wf(p, r@),
            r@.turns == turns@,
    {
        let n = p.get_num_pieces();
        let mut face_map = identity_vec(n);
        let mut i: usize = 0;
        while i < turns.len()
            invariant
                i <= turns@.len(),
                p.wf(),
                forall|k: int|
                    0 <= k < turns@.len() ==> (#[trigger] turns@[k]) < p.spec_num_turns(),
                face_map@ == seq_face_map(p, turns@.take(i as int)),
            decreases turns@.len() - i,
        {
            proof {
                lemma_seq_face_map_permutation(p, turns@.take(i as int));
                assert(turns@.take(i + 1).drop_last() =~= turns@.take(i as int));
                assert(turns@.take(i + 1).last() == turns@[i as int]);
            }
            let t = turns[i];
            face_map = compose_vec(&face_map, p.get_turn_face_map(t), p.get_num_pieces());
            i += 1;
        }
        proof {
            assert(turns@.take(turns@.len() as int) =~= turns@);
        }
        let num_affected_pieces = count_moved_vec(&face_map);
        MetaMove { turns, face_map, num_affected_pieces }
    }

    /// Combines this metamove with another: this one applied first, the
    /// other second. Pure; both inputs are left untouched.
    pub fn apply(&self, p: &TwistyPuzzle, other: &MetaMove) -> (r: MetaMove)
        requires
            p.wf(),
            mm_wf(p, self@),
            mm_wf(p, other@),
        ensures
            r@ == combine_views(self@, other@),
            mm_wf(p, r@),
    {
        proof {
            lemma_seq_face_map_permutation(p, self@.turns);
            lemma_seq_face_map_permutation(p, other@.turns);
            lemma_combine_wf(p, self@, other@);
        }
        let mut turns = crate::puzzle::clone_usize_vec(&self.turns);
        let mut i: usize = 0;
        while i < other.turns.len()
            invariant
                i <= other.turns@.len(),
                turns@ == self.turns@ + other.turns@.take(i as int),
            decreases other.turns@.len() - i,
        {
            proof {
                assert(self.turns@ + other.turns@.take(i + 1) =~= (self.turns@
                    + other.turns@.take(i as int)).push(other.turns@[i as int]));
            }
            turns.push(other.turns[i]);
            i += 1;
        }
        proof {
            assert(self.turns@ + other.turns@.take(other.turns@.len() as int) =~= self.turns@
                + other.turns@);
        }
        let face_map = compose_vec(&self.face_map, &other.face_map, p.get_num_pieces());
        let num_affected_pieces = count_moved_vec(&face_map);
        MetaMove { turns, face_map, num_affected_pieces }
    }

    /// An explicit copy of this metamove.
    pub fn duplicate(&self) -> (r: MetaMove)
        ensures
            r@ == self@,
    {
        MetaMove {
            turns: crate::puzzle::clone_usize_vec(&self.turns),
            face_map: crate::puzzle::clone_usize_vec(&self.face_map),
            num_affected_pieces: self.num_affected_pieces,
        }
    }

    /// The metamove repeated `k` times in a row.
    pub open spec fn repeat_view(v: MetaMoveView, k: nat) -> MetaMoveView
        decreases k,
    {
        if k <= 1 {
            v
        } else {
            combine_views(Self::repeat_view(v, (k - 1) as nat), v)
        }
    }

    /// Additional candidate metamoves derived by repeating this one against
    /// itself: repetition can make some of its internal piece cycles cancel,
    /// shrinking the number of affected pieces at the cost of more turns.
    /// Returns the powers from two up to `max_repeats`.
    pub fn discover_repeat_metamoves(&self, p: &TwistyPuzzle, max_repeats: usize) -> (r: Vec<
        MetaMove,
    >)
        requires
            p.wf(),
            mm_wf(p, self@),
            max_repeats < usize::MAX,
        ensures
            forall|j: int| 0 <= j < r@.len() ==> mm_wf(p, (#[trigger] r@[j])@),
            forall|j: int|
                0 <= j < r@.len() ==> (#[trigger] r@[j])@ == Self::repeat_view(self@, (j + 2) as nat),
            max_repeats >= 2 ==> r@.len() == max_repeats - 1,
            max_repeats < 2 ==> r@.len() == 0,
    {
        let mut r: Vec<MetaMove> = Vec::new();
        if max_repeats < 2 {
            return r;
        }
        let mut power = self.apply(p, self);
        proof {
            assert(Self::repeat_view(self@, 1) == self@);
            assert(Self::repeat_view(self@, 2) == combine_views(self@, self@));
        }
        let mut k: usize = 2;
        while k <= max_repeats
            invariant
                2 <= k <= max_repeats + 1,
                max_repeats < usize::MAX,
                p.wf(),
                mm_wf(p, self@),
                mm_wf(p, power@),
                power@ == Self::repeat_view(self@, k as nat),
                r@.len() == k - 2,
                forall|j: int| 0 <= j < r@.len() ==> mm_wf(p, (#[trigger] r@[j])@),
                forall|j: int|
                    0 <= j < r@.len() ==> (#[trigger] r@[j])@ == Self::repeat_view(self@, (j + 2) as nat),
            decreases max_repeats + 1 - k,
        {
            r.push(power.duplicate());
            power = power.apply(p, self);
            k += 1;
        }
        r
    }
}

/// The composition of two in-range maps over `n` positions, as a vector.
pub fn compose_vec(f: &Vec<usize>, g: &Vec<usize>, n: usize) -> (r: Vec<usize>)
    requires
        map_in_range(f@, n as nat),
        map_in_range(g@, n as nat),
    ensures
        r@ == compose_maps(f@, g@),
{
    let mut r: Vec<usize> = Vec::new();
    let mut i: usize = 0;
    while i < g.len()
        invariant
            i <= g@.len(),
            r@.len() == i,
            forall|k: int| 0 <= k < i ==> r@[k] == f@[g@[k] as int],
            map_in_range(f@, n as nat),
            map_in_range(g@, n as nat),
        decreases g@.len() - i,
    {
        r.push(f[g[i]]);
        i += 1;
    }
    assert(r@ =~= compose_maps(f@, g@));
    r
}

/// A map that agrees with the identity on every position moves none.
pub proof fn lemma_moved_identity(f: Seq<usize>, k: nat)
    requires
        k <= f.len(),
        forall|i: int| 0 <= i < f.len() ==> (#[trigger] f[i]) == i,
    ensures
        moved_below(f, k) == 0,
    decreases k,
{
    if k > 0 {
        lemma_moved_identity(f, (k - 1) as nat);
    }
}

} // verus!
