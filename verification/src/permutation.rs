//! The mathematical model of piece rearrangement: total maps over position
//! indices, their application to a state, and their composition.

use vstd::prelude::*;

verus! {

/// `f` maps every position below `n` to a position below `n` and has length `n`.
pub open spec fn map_in_range(f: Seq<usize>, n: nat) -> bool {
    f.len() == n && forall|i: int| 0 <= i < n ==> (#[trigger] f[i]) < n
}

/// `f` is a total bijection over the positions below `n`.
pub open spec fn is_permutation(f: Seq<usize>, n: nat) -> bool {
    map_in_range(f, n) && forall|i: int, j: int| 0 <= i < j < n ==> #[trigger] f[i] != #[trigger] f[j]
}

/// The state reached from `s` by one application of the map `f`: the piece at
/// position `i` afterwards is the piece that stood at position `f[i]`.
pub open spec fn apply_map(s: Seq<usize>, f: Seq<usize>) -> Seq<usize> {
    Seq::new(f.len(), |i: int| s[f[i] as int])
}

/// The single map equivalent to applying `f` first and `g` second.
pub open spec fn compose_maps(f: Seq<usize>, g: Seq<usize>) -> Seq<usize> {
    Seq::new(g.len(), |i: int| f[g[i] as int])
}

/// The map that leaves every position in place.
pub open spec fn identity_map(n: nat) -> Seq<usize> {
    Seq::new(n, |i: int| i as usize)
}

/// Applying `f` and then `g` reaches the same state as one application of
/// their composition.
pub proof fn lemma_apply_compose(s: Seq<usize>, f: Seq<usize>, g: Seq<usize>, n: nat)
    requires
        s.len() == n,
        map_in_range(f, n),
        map_in_range(g, n),
    ensures
        apply_map(apply_map(s, f), g) == apply_map(s, compose_maps(f, g)),
{
    assert(apply_map(apply_map(s, f), g) =~= apply_map(s, compose_maps(f, g)));
}

/// Composition of maps is associative: composing `a` with `b then c` gives
/// the same map as composing `a then b` with `c`, so deriving a state through
/// either grouping gives the same state.
pub proof fn lemma_compose_assoc(a: Seq<usize>, b: Seq<usize>, c: Seq<usize>, n: nat)
    requires
        map_in_range(a, n),
        map_in_range(b, n),
        map_in_range(c, n),
    ensures
        compose_maps(compose_maps(a, b), c) == compose_maps(a, compose_maps(b, c)),
{
    assert(compose_maps(compose_maps(a, b), c) =~= compose_maps(a, compose_maps(b, c)));
}

/// Deriving a state by applying `a` and then the composition of `b` and
/// `c` reaches the same state as applying the composition of `a` and `b`
/// and then `c`: either grouping of three turns derives the same state.
pub proof fn lemma_derive_grouping(s: Seq<usize>, a: Seq<usize>, b: Seq<usize>, c: Seq<usize>, n: nat)
    requires
        s.len() == n,
        map_in_range(a, n),
        map_in_range(b, n),
        map_in_range(c, n),
    ensures
        apply_map(s, compose_maps(a, compose_maps(b, c))) == apply_map(
            s,
            compose_maps(compose_maps(a, b), c),
        ),
        apply_map(s, compose_maps(a, compose_maps(b, c))) == apply_map(
            apply_map(apply_map(s, a), b),
            c,
        ),
{
    lemma_compose_assoc(a, b, c, n);
    lemma_compose_in_range(a, b, n);
    lemma_apply_compose(s, a, b, n);
    lemma_apply_compose(apply_map(s, a), b, c, n);
    lemma_apply_compose(s, compose_maps(a, b), c, n);
}

/// The composition of in-range maps is in range.
pub proof fn lemma_compose_in_range(f: Seq<usize>, g: Seq<usize>, n: nat)
    requires
        map_in_range(f, n),
        map_in_range(g, n),
    ensures
        map_in_range(compose_maps(f, g), n),
{
}

/// The composition of permutations is a permutation.
pub proof fn lemma_compose_permutation(f: Seq<usize>, g: Seq<usize>, n: nat)
    requires
        is_permutation(f, n),
        is_permutation(g, n),
    ensures
        is_permutation(compose_maps(f, g), n),
{
    assert forall|i: int, j: int|
        0 <= i < j < n implies #[trigger] compose_maps(f, g)[i] != #[trigger] compose_maps(f, g)[j] by {
        assert(g[i] != g[j]);
        if g[i] < g[j] {
            assert(f[g[i] as int] != f[g[j] as int]);
        } else {
            assert(f[g[j] as int] != f[g[i] as int]);
        }
    }
}

/// The identity map is a permutation, and applying it changes nothing.
pub proof fn lemma_identity_map(s: Seq<usize>, n: nat)
    requires
        s.len() == n,
        n <= usize::MAX,
    ensures
        is_permutation(identity_map(n), n),
        apply_map(s, identity_map(n)) == s,
{
    assert(apply_map(s, identity_map(n)) =~= s);
}

/// Composing with the identity map on either side changes nothing.
pub proof fn lemma_compose_identity(f: Seq<usize>, n: nat)
    requires
        map_in_range(f, n),
        n <= usize::MAX,
    ensures
        compose_maps(identity_map(n), f) == f,
        compose_maps(f, identity_map(n)) == f,
{
    assert(compose_maps(identity_map(n), f) =~= f);
    assert(compose_maps(f, identity_map(n)) =~= f);
}

/// The identity map of length `n` as a vector.
pub fn identity_vec(n: usize) -> (r: Vec<usize>)
    ensures
        r@ == identity_map(n as nat),
{
    let mut r: Vec<usize> = Vec::new();
    let mut i: usize = 0;
    while i < n
        invariant
            i <= n,
            r@.len() == i,
            forall|k: int| 0 <= k < i ==> r@[k] == k,
        decreases n - i,
    {
        r.push(i);
        i += 1;
    }
    assert(r@ =~= identity_map(n as nat));
    r
}

/// Number of positions that `f` moves: those whose occupant changes under one
/// application of `f`, counted over the prefix of length `k`.
pub open spec fn moved_below(f: Seq<usize>, k: nat) -> nat
    decreases k,
{
    if k == 0 {
        0
    } else {
        moved_below(f, (k - 1) as nat) + if f[k - 1] != k - 1 {
            1nat
        } else {
            0nat
        }
    }
}

/// Number of positions that the map `f` displaces.
pub open spec fn count_moved(f: Seq<usize>) -> nat {
    moved_below(f, f.len())
}

/// Counts the positions that `f` displaces.
pub fn count_moved_vec(f: &Vec<usize>) -> (r: usize)
    ensures
        r == count_moved(f@),
        r <= f@.len(),
{
    let mut r: usize = 0;
    let mut i: usize = 0;
    while i < f.len()
        invariant
            i <= f@.len(),
            r == moved_below(f@, i as nat),
            r <= i,
        decreases f@.len() - i,
    {
        if f[i] != i {
            r += 1;
        }
        i += 1;
    }
    r
}

} // verus!
