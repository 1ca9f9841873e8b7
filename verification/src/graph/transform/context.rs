use vstd::prelude::*;

use crate::graph::graph_view::GraphView;
use crate::pattern::Pattern;

verus! {

/// Maps every element with `f`, which also sees the view's query; roles and query
/// stay as they are.
pub fn map_with_context<Extra, V, Q, C, F>(_classifier: &C, f: F, view: GraphView<Extra, V, Q>) -> (r: GraphView<Extra, V, Q>)
    where
        F: Fn(&Q, Pattern<V>) -> Pattern<V>,
    requires
        forall|q: &Q, p: Pattern<V>| #[trigger] f.requires((q, p)),
    ensures
        r.view_query == view.view_query,
        r.view_elements.len() == view.view_elements.len(),
        forall|i: int|
            0 <= i < r.view_elements.len() ==> (#[trigger] r.view_elements@[i]).0 == view.view_elements@[i].0
                && f.ensures((&r.view_query, view.view_elements@[i].1), r.view_elements@[i].1),
{
    let snapshot = view.view_query;
    let ghost es = view.view_elements@;
    let mut pending = crate::pattern::combine::reversed(view.view_elements);
    let n = pending.len();
    let mut out: Vec<(crate::graph::graph_classifier::GraphClass<Extra>, Pattern<V>)> = Vec::new();
    while pending.len() > 0
        invariant
            n == es.len(),
            pending.len() <= n,
            out.len() + pending.len() == n,
            forall|k: int| 0 <= k < pending.len() ==> #[trigger] pending@[k] == es[n - 1 - k],
            forall|q: &Q, p: Pattern<V>| #[trigger] f.requires((q, p)),
            forall|i: int|
                0 <= i < out.len() ==> (#[trigger] out@[i]).0 == es[i].0 && f.ensures((&snapshot, es[i].1), out@[i].1),
        decreases pending.len(),
    {
        let ghost j = out.len() as int;
        let (cls, p) = pending.pop().unwrap();
        let mapped = f(&snapshot, p);
        out.push((cls, mapped));
        proof {
            assert(out@[j].0 == es[j].0);
        }
    }
    GraphView { view_query: snapshot, view_elements: out }
}

} // verus!
