use vstd::prelude::*;

use crate::pattern::combine::reversed;
use crate::pattern::{lemma_pattern_view, Pattern};
use crate::tree::Tree;

verus! {

/// `t` is what unfolding `seed` with `f` builds: its value and child seeds are what
/// `f` returned for `seed`, and each child is unfolded from its seed.
pub open spec fn unfolded_from<A, V, F: Fn(A) -> (V, Vec<A>)>(f: F, seed: A, t: Tree<V>) -> bool
    decreases t,
{
    exists|seeds: Vec<A>|
        {
            &&& #[trigger] f.ensures((seed,), (t.value, seeds))
            &&& seeds.len() == t.children.len()
            &&& forall|i: int|
                0 <= i < seeds.len() ==> unfolded_from(f, seeds@[i], #[trigger] t.children[i])
        }
}

/// Every child seed that `f` returns is smaller than its parent seed under `m`.
pub open spec fn shrinks<A, V, F: Fn(A) -> (V, Vec<A>)>(f: F, m: spec_fn(A) -> nat) -> bool {
    forall|a: A, r: (V, Vec<A>)|
        #[trigger] f.ensures((a,), r) ==> forall|i: int| 0 <= i < r.1.len() ==> m(#[trigger] r.1@[i]) < m(a)
}

/// Builds a pattern from a seed: `expand` gives the value of a node and the seeds of
/// its elements, which are expanded in turn, depth first, left to right.
pub fn unfold<A, V, F>(expand: F, seed: A) -> (r: Pattern<V>)
    where
        F: Fn(A) -> (V, Vec<A>),
    requires
        forall|a: A| expand.requires((a,)),
        exists|m: spec_fn(A) -> nat| shrinks(expand, m),
    ensures
        unfolded_from(expand, seed, r@),
{
    let ghost m = choose|m: spec_fn(A) -> nat| shrinks(expand, m);
    unfold_with(&expand, seed, Ghost(m))
}

fn unfold_with<A, V, F>(expand: &F, seed: A, Ghost(m): Ghost<spec_fn(A) -> nat>) -> (r: Pattern<V>)
    where
        F: Fn(A) -> (V, Vec<A>),
    requires
        forall|a: A| expand.requires((a,)),
        shrinks(*expand, m),
    ensures
        unfolded_from(*expand, seed, r@),
    decreases m(seed),
{
    let ghost s = seed;
    let (value, children) = expand(seed);
    let ghost seeds = children;
    let ghost v = value;
    proof {
        assert(expand.ensures((s,), (v, seeds)));
    }
    let mut pending = reversed(children);
    let mut elements: Vec<Pattern<V>> = Vec::new();
    let n = pending.len();
    while pending.len() > 0
        invariant
            n == seeds.len(),
            s == seed,
            pending.len() + elements.len() == n,
            forall|k: int| 0 <= k < pending.len() ==> #[trigger] pending@[k] == seeds@[n - 1 - k],
            forall|k: int| 0 <= k < n ==> m(#[trigger] seeds@[k]) < m(s),
            forall|a: A| expand.requires((a,)),
            shrinks(*expand, m),
            forall|k: int| 0 <= k < elements.len() ==> unfolded_from(*expand, seeds@[k], #[trigger] elements@[k]@),
        decreases pending.len(),
    {
        let child_seed = pending.pop().unwrap();
        let ghost k = elements.len() as int;
        proof {
            assert(child_seed == seeds@[k]);
        }
        let e = unfold_with(expand, child_seed, Ghost(m));
        elements.push(e);
    }
    let r = Pattern { value, elements };
    proof {
        lemma_pattern_view(r);
        assert(forall|i: int| 0 <= i < seeds.len() ==> unfolded_from(*expand, seeds@[i], #[trigger] r@.children[i]));
        assert(expand.ensures((s,), (r@.value, seeds)));
    }
    r
}

} // verus!
