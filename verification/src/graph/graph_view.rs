use vstd::prelude::*;

use vstd::std_specs::cmp::PartialEqSpec;

use crate::graph::graph_classifier::{Classify, GraphClass};
use crate::pattern::{patterns_forest, Pattern};
use crate::pattern_graph::{class_of, copy_of, deterministic, empty_model, from_patterns_with_policy, merged_each, PatternGraph};
use crate::reconcile::{exact_clone, HasIdentity, Mergeable, ReconciliationPolicy, Refinable};
use crate::subject::Symbol;
use crate::tree::Tree;

verus! {

/// A query over a graph together with its elements, each with its role.
pub struct GraphView<Extra, V, Q> {
    pub view_query: Q,
    pub view_elements: Vec<(GraphClass<Extra>, Pattern<V>)>,
}

/// The trees of the elements of a view, in order.
pub open spec fn element_trees<Extra, V>(s: Seq<(GraphClass<Extra>, Pattern<V>)>) -> Seq<Tree<V>> {
    s.map_values(|e: (GraphClass<Extra>, Pattern<V>)| e.1@)
}

/// The graph of the view's elements, merged in order into the empty graph under
/// `policy`.
pub fn materialize<Extra, V, Q, C>(
    classifier: &C,
    policy: &ReconciliationPolicy<V::MergeStrategy>,
    view: GraphView<Extra, V, Q>,
) -> (r: PatternGraph<Extra, V>) where
    V: HasIdentity<V, Symbol> + Mergeable + Refinable + PartialEq + Clone,
    C: Classify<Extra, V>,
    requires
        classifier.ready(),
        deterministic(*classifier),
    ensures
        r.well_formed(),
        exact_clone::<V>() && V::obeys_eq_spec() ==> r@ == merged_each(
            *classifier,
            *policy,
            element_trees(view.view_elements@),
            empty_model(),
        ),
{
    let ghost ts = element_trees(view.view_elements@);
    let mut pending = crate::pattern::combine::reversed(view.view_elements);
    let n = pending.len();
    let mut patterns: Vec<Pattern<V>> = Vec::new();
    while pending.len() > 0
        invariant
            n == ts.len(),
            pending.len() <= n,
            forall|k: int| 0 <= k < pending.len() ==> #[trigger] pending@[k].1@ == ts[n - 1 - k],
            patterns_forest(patterns@) == ts.take(n - pending.len()),
        decreases pending.len(),
    {
        let ghost j = n - pending.len();
        let (_, p) = pending.pop().unwrap();
        let ghost before = patterns@;
        patterns.push(p);
        proof {
            assert(p@ == ts[j]);
            crate::tree::lemma_take_step(ts, j);
            assert(patterns_forest(patterns@) =~= patterns_forest(before).push(p@));
        }
    }
    proof {
        assert(ts.take(n as int) =~= ts);
    }
    from_patterns_with_policy(classifier, policy, patterns)
}


/// The trees of a list of keyed patterns, in order.
pub open spec fn entry_trees<V>(s: Seq<(Symbol, Pattern<V>)>) -> Seq<Tree<V>> {
    s.map_values(|e: (Symbol, Pattern<V>)| e.1@)
}

/// The trees of a list of keyed other patterns, in order.
pub open spec fn other_trees<Extra, V>(s: Seq<(Symbol, (Extra, Pattern<V>))>) -> Seq<Tree<V>> {
    s.map_values(|e: (Symbol, (Extra, Pattern<V>))| e.1.1@)
}

/// Every element holds the role the classifier gives its pattern.
pub open spec fn classed_by<Extra, V, C: Classify<Extra, V>>(cl: C, s: Seq<(GraphClass<Extra>, Pattern<V>)>) -> bool {
    forall|k: int| 0 <= k < s.len() ==> (#[trigger] s[k]).0 == class_of(cl, s[k].1@)
}

/// Appends to `out` a copy of the pattern of each entry, with its role.
fn classify_entries<Extra, V: Clone, C: Classify<Extra, V>>(
    classifier: &C,
    entries: &Vec<(Symbol, Pattern<V>)>,
    out: &mut Vec<(GraphClass<Extra>, Pattern<V>)>,
)
    requires
        classifier.ready(),
        deterministic(*classifier),
        classed_by(*classifier, old(out)@),
    ensures
        classed_by(*classifier, final(out)@),
        exact_clone::<V>() ==> element_trees(final(out)@) == element_trees(old(out)@) + entry_trees(entries@),
{
    let ghost start = element_trees(out@);
    let mut i: usize = 0;
    while i < entries.len()
        invariant
            i <= entries.len(),
            classifier.ready(),
            deterministic(*classifier),
            classed_by(*classifier, out@),
            exact_clone::<V>() ==> element_trees(out@) == start + entry_trees(entries@).take(i as int),
        decreases entries.len() - i,
    {
        let copy = copy_of(&entries[i].1);
        let c = classifier.classify(&copy);
        let ghost before = out@;
        out.push((c, copy));
        proof {
            assert(classifier.classified(copy@, class_of(*classifier, copy@)));
            assert forall|k: int| 0 <= k < out@.len() implies (#[trigger] out@[k]).0 == class_of(*classifier, out@[k].1@) by {
                if k < before.len() {
                    assert(out@[k] == before[k]);
                }
            }
            if exact_clone::<V>() {
                assert(element_trees(out@) =~= element_trees(before).push(copy@));
                assert(entry_trees(entries@)[i as int] == entries@[i as int].1@);
                assert(entry_trees(entries@).take(i + 1) =~= entry_trees(entries@).take(i as int).push(entries@[i as int].1@));
                assert(element_trees(out@) =~= start + entry_trees(entries@).take(i + 1));
            }
        }
        i = i + 1;
    }
    proof {
        assert(entry_trees(entries@).take(entries.len() as int) =~= entry_trees(entries@));
    }
}

/// The elements of `graph`, each with the role `classifier` gives it: its nodes,
/// then its relationships, walks, annotations and other patterns, each in order.
pub fn view_elements_from_graph<Extra, V: Clone, C: Classify<Extra, V>>(
    classifier: &C,
    graph: &PatternGraph<Extra, V>,
) -> (r: Vec<(GraphClass<Extra>, Pattern<V>)>)
    requires
        classifier.ready(),
        deterministic(*classifier),
    ensures
        classed_by(*classifier, r@),
        exact_clone::<V>() ==> element_trees(r@) == entry_trees(graph.pg_nodes@) + entry_trees(graph.pg_relationships@)
            + entry_trees(graph.pg_walks@) + entry_trees(graph.pg_annotations@) + other_trees(graph.pg_other@),
{
    let mut r: Vec<(GraphClass<Extra>, Pattern<V>)> = Vec::new();
    proof {
        assert(element_trees(r@) =~= Seq::<Tree<V>>::empty());
    }
    classify_entries(classifier, &graph.pg_nodes, &mut r);
    classify_entries(classifier, &graph.pg_relationships, &mut r);
    classify_entries(classifier, &graph.pg_walks, &mut r);
    classify_entries(classifier, &graph.pg_annotations, &mut r);
    let ghost start = element_trees(r@);
    let mut i: usize = 0;
    while i < graph.pg_other.len()
        invariant
            i <= graph.pg_other.len(),
            classifier.ready(),
            deterministic(*classifier),
            classed_by(*classifier, r@),
            exact_clone::<V>() ==> element_trees(r@) == start + other_trees(graph.pg_other@).take(i as int),
        decreases graph.pg_other.len() - i,
    {
        let copy = copy_of(&graph.pg_other[i].1.1);
        let c = classifier.classify(&copy);
        let ghost before = r@;
        r.push((c, copy));
        proof {
            assert(classifier.classified(copy@, class_of(*classifier, copy@)));
            assert forall|k: int| 0 <= k < r@.len() implies (#[trigger] r@[k]).0 == class_of(*classifier, r@[k].1@) by {
                if k < before.len() {
                    assert(r@[k] == before[k]);
                }
            }
            if exact_clone::<V>() {
                assert(element_trees(r@) =~= element_trees(before).push(copy@));
                assert(other_trees(graph.pg_other@)[i as int] == graph.pg_other@[i as int].1.1@);
                assert(other_trees(graph.pg_other@).take(i + 1) =~= other_trees(graph.pg_other@).take(i as int).push(graph.pg_other@[i as int].1.1@));
                assert(element_trees(r@) =~= start + other_trees(graph.pg_other@).take(i + 1));
            }
        }
        i = i + 1;
    }
    proof {
        assert(other_trees(graph.pg_other@).take(graph.pg_other.len() as int) =~= other_trees(graph.pg_other@));
    }
    r
}

} // verus!
