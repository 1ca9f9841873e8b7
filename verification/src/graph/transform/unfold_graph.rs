use vstd::prelude::*;

use vstd::std_specs::cmp::PartialEqSpec;

use crate::graph::graph_classifier::Classify;
use crate::pattern::{patterns_forest, Pattern};
use crate::pattern_graph::{deterministic, empty_model, from_patterns_with_policy, merged_each, PatternGraph};
use crate::reconcile::{exact_clone, HasIdentity, Mergeable, ReconciliationPolicy, Refinable};
use crate::subject::Symbol;
use crate::tree::Tree;

verus! {

/// The trees of the patterns of each list, one list after another.
pub open spec fn all_trees<V>(outs: Seq<Vec<Pattern<V>>>) -> Seq<Tree<V>> {
    outs.map_values(|v: Vec<Pattern<V>>| patterns_forest(v@)).flatten_alt()
}

/// The graph of the patterns that `expand` makes of each seed in turn.
pub fn unfold_graph<A, Extra, V, C, F>(
    classifier: &C,
    policy: &ReconciliationPolicy<V::MergeStrategy>,
    expand: F,
    seeds: Vec<A>,
) -> (r: PatternGraph<Extra, V>) where
    V: HasIdentity<V, Symbol> + Mergeable + Refinable + PartialEq + Clone,
    C: Classify<Extra, V>,
    F: Fn(A) -> Vec<Pattern<V>>,
    requires
        classifier.ready(),
        deterministic(*classifier),
        forall|a: A| #[trigger] expand.requires((a,)),
    ensures
        r.well_formed(),
        exists|outs: Seq<Vec<Pattern<V>>>|
            {
                &&& outs.len() == seeds.len()
                &&& forall|i: int| 0 <= i < seeds.len() ==> #[trigger] expand.ensures((seeds@[i],), outs[i])
                &&& exact_clone::<V>() && V::obeys_eq_spec() ==> r@ == merged_each(
                    *classifier,
                    *policy,
                    all_trees(outs),
                    empty_model(),
                )
            },
{
    let ghost ss = seeds@;
    let ghost mut outs: Seq<Vec<Pattern<V>>> = Seq::empty();
    let mut pending = crate::pattern::combine::reversed(seeds);
    let n = pending.len();
    let mut patterns: Vec<Pattern<V>> = Vec::new();
    proof {
        assert(patterns_forest(patterns@) =~= all_trees(outs));
    }
    while pending.len() > 0
        invariant
            n == ss.len(),
            pending.len() <= n,
            outs.len() + pending.len() == n,
            forall|k: int| 0 <= k < pending.len() ==> #[trigger] pending@[k] == ss[n - 1 - k],
            forall|a: A| #[trigger] expand.requires((a,)),
            forall|i: int| 0 <= i < outs.len() ==> #[trigger] expand.ensures((ss[i],), outs[i]),
            patterns_forest(patterns@) == all_trees(outs),
        decreases pending.len(),
    {
        let ghost j = outs.len() as int;
        let seed = pending.pop().unwrap();
        proof {
            assert(seed == ss[j]);
        }
        let mut made = expand(seed);
        let ghost out = made;
        let ghost before = patterns@;
        patterns.append(&mut made);
        proof {
            let prev = outs;
            outs = outs.push(out);
            assert(outs.map_values(|v: Vec<Pattern<V>>| patterns_forest(v@)).drop_last() =~= prev.map_values(|v: Vec<Pattern<V>>| patterns_forest(v@)));
            assert(patterns_forest(patterns@) =~= patterns_forest(before) + patterns_forest(out@));
        }
    }
    from_patterns_with_policy(classifier, policy, patterns)
}

} // verus!
