use vstd::prelude::*;

use crate::graph::graph_classifier::{class_cloned, GraphClass};
use crate::graph::graph_view::GraphView;
use crate::graph::transform::types::{CategoryMappers, Substitution};
use crate::pattern::Pattern;
use crate::tree::Tree;

verus! {

/// Maps every element with `f`; roles and query stay as they are.
pub fn map_all_graph<Extra, V, Q, F>(f: F, view: GraphView<Extra, V, Q>) -> (r: GraphView<Extra, V, Q>)
    where
        F: Fn(Pattern<V>) -> Pattern<V>,
    requires
        forall|p: Pattern<V>| #[trigger] f.requires((p,)),
    ensures
        r.view_query == view.view_query,
        r.view_elements.len() == view.view_elements.len(),
        forall|i: int|
            0 <= i < r.view_elements.len() ==> (#[trigger] r.view_elements@[i]).0 == view.view_elements@[i].0
                && f.ensures((view.view_elements@[i].1,), r.view_elements@[i].1),
{
    let ghost es = view.view_elements@;
    let mut pending = crate::pattern::combine::reversed(view.view_elements);
    let n = pending.len();
    let mut out: Vec<(GraphClass<Extra>, Pattern<V>)> = Vec::new();
    while pending.len() > 0
        invariant
            n == es.len(),
            pending.len() <= n,
            out.len() + pending.len() == n,
            forall|k: int| 0 <= k < pending.len() ==> #[trigger] pending@[k] == es[n - 1 - k],
            forall|p: Pattern<V>| #[trigger] f.requires((p,)),
            forall|i: int| 0 <= i < out.len() ==> (#[trigger] out@[i]).0 == es[i].0 && f.ensures((es[i].1,), out@[i].1),
        decreases pending.len(),
    {
        let ghost j = out.len() as int;
        let (cls, p) = pending.pop().unwrap();
        let mapped = f(p);
        out.push((cls, mapped));
        proof {
            assert(out@[j].0 == es[j].0);
        }
    }
    GraphView { view_query: view.view_query, view_elements: out }
}

/// `out` is what the mapper of `cls`'s role made of `p` (the other mapper gets a copy
/// of the role).
pub open spec fn mapped_by_role<Extra: Clone, V, N, R, W, A, O>(
    m: CategoryMappers<N, R, W, A, O>,
    cls: GraphClass<Extra>,
    p: Pattern<V>,
    out: Pattern<V>,
) -> bool where
    N: Fn(Pattern<V>) -> Pattern<V>,
    R: Fn(Pattern<V>) -> Pattern<V>,
    W: Fn(Pattern<V>) -> Pattern<V>,
    A: Fn(Pattern<V>) -> Pattern<V>,
    O: Fn(GraphClass<Extra>, Pattern<V>) -> Pattern<V>,
 {
    match cls {
        GraphClass::GNode => m.nodes.ensures((p,), out),
        GraphClass::GRelationship => m.relationships.ensures((p,), out),
        GraphClass::GWalk => m.walks.ensures((p,), out),
        GraphClass::GAnnotation => m.annotations.ensures((p,), out),
        GraphClass::GOther(_) => exists|c: GraphClass<Extra>| class_cloned(cls, c) && #[trigger] m.other.ensures((c, p), out),
    }
}

/// Maps every element with the mapper of its role; roles and query stay as they are.
pub fn map_graph<Extra: Clone, V, Q, C, N, R, W, A, O>(
    _classifier: &C,
    mappers: CategoryMappers<N, R, W, A, O>,
    view: GraphView<Extra, V, Q>,
) -> (r: GraphView<Extra, V, Q>) where
    N: Fn(Pattern<V>) -> Pattern<V>,
    R: Fn(Pattern<V>) -> Pattern<V>,
    W: Fn(Pattern<V>) -> Pattern<V>,
    A: Fn(Pattern<V>) -> Pattern<V>,
    O: Fn(GraphClass<Extra>, Pattern<V>) -> Pattern<V>,
    requires
        forall|p: Pattern<V>| #[trigger] mappers.nodes.requires((p,)),
        forall|p: Pattern<V>| #[trigger] mappers.relationships.requires((p,)),
        forall|p: Pattern<V>| #[trigger] mappers.walks.requires((p,)),
        forall|p: Pattern<V>| #[trigger] mappers.annotations.requires((p,)),
        forall|c: GraphClass<Extra>, p: Pattern<V>| #[trigger] mappers.other.requires((c, p)),
    ensures
        r.view_query == view.view_query,
        r.view_elements.len() == view.view_elements.len(),
        forall|i: int|
            0 <= i < r.view_elements.len() ==> (#[trigger] r.view_elements@[i]).0 == view.view_elements@[i].0
                && mapped_by_role(mappers, view.view_elements@[i].0, view.view_elements@[i].1, r.view_elements@[i].1),
{
    let ghost es = view.view_elements@;
    let mut pending = crate::pattern::combine::reversed(view.view_elements);
    let n = pending.len();
    let mut out: Vec<(GraphClass<Extra>, Pattern<V>)> = Vec::new();
    while pending.len() > 0
        invariant
            n == es.len(),
            pending.len() <= n,
            out.len() + pending.len() == n,
            forall|k: int| 0 <= k < pending.len() ==> #[trigger] pending@[k] == es[n - 1 - k],
            forall|p: Pattern<V>| #[trigger] mappers.nodes.requires((p,)),
            forall|p: Pattern<V>| #[trigger] mappers.relationships.requires((p,)),
            forall|p: Pattern<V>| #[trigger] mappers.walks.requires((p,)),
            forall|p: Pattern<V>| #[trigger] mappers.annotations.requires((p,)),
            forall|c: GraphClass<Extra>, p: Pattern<V>| #[trigger] mappers.other.requires((c, p)),
            forall|i: int| 0 <= i < out.len() ==> (#[trigger] out@[i]).0 == es[i].0 && mapped_by_role(mappers, es[i].0, es[i].1, out@[i].1),
        decreases pending.len(),
    {
        let ghost j = out.len() as int;
        let (cls, p) = pending.pop().unwrap();
        let ghost pv = p;
        let mapped = match &cls {
            GraphClass::GNode => (mappers.nodes)(p),
            GraphClass::GRelationship => (mappers.relationships)(p),
            GraphClass::GWalk => (mappers.walks)(p),
            GraphClass::GAnnotation => (mappers.annotations)(p),
            GraphClass::GOther(_) => {
                let c = cls.clone();
                let out_p = (mappers.other)(c, p);
                proof {
                    assert(class_cloned(cls, c) && mappers.other.ensures((c, pv), out_p));
                }
                out_p
            },
        };
        out.push((cls, mapped));
        proof {
            assert(out@[j].0 == es[j].0);
            assert(mapped_by_role(mappers, es[j].0, es[j].1, out@[j].1));
        }
    }
    GraphView { view_query: view.view_query, view_elements: out }
}

/// The elements kept: those `keep` marks, and in place of each other one the
/// substitute with its role, if there is one.
pub open spec fn filtered<Extra, V>(
    es: Seq<(GraphClass<Extra>, Pattern<V>)>,
    keep: Seq<bool>,
    substitute: Option<Tree<V>>,
) -> Seq<(GraphClass<Extra>, Tree<V>)>
    decreases es.len(),
{
    if es.len() == 0 {
        Seq::empty()
    } else {
        let before = filtered(es.drop_last(), keep, substitute);
        let e = es.last();
        if keep[es.len() - 1] {
            before.push((e.0, e.1@))
        } else {
            match substitute {
                Some(t) => before.push((e.0, t)),
                None => before,
            }
        }
    }
}

/// The views of a sequence of elements.
pub open spec fn element_views<Extra, V>(es: Seq<(GraphClass<Extra>, Pattern<V>)>) -> Seq<(GraphClass<Extra>, Tree<V>)> {
    es.map_values(|e: (GraphClass<Extra>, Pattern<V>)| (e.0, e.1@))
}

/// The tree a substitution puts in place of a removed element.
pub open spec fn substitute_of<V>(s: Substitution<V>) -> Option<Tree<V>> {
    match s {
        Substitution::ReplaceWith(filler) => Some(filler@),
        _ => None,
    }
}

/// Keeps the elements that `predicate` accepts; each other one is dropped, or, with
/// `ReplaceWith`, replaced by a copy of the filler with the element's role.
pub fn filter_graph<Extra, V: Clone, Q, C, P>(
    _classifier: &C,
    predicate: P,
    substitution: Substitution<V>,
    view: GraphView<Extra, V, Q>,
) -> (r: GraphView<Extra, V, Q>) where P: Fn(&GraphClass<Extra>, &Pattern<V>) -> bool
    requires
        forall|c: &GraphClass<Extra>, p: &Pattern<V>| #[trigger] predicate.requires((c, p)),
    ensures
        r.view_query == view.view_query,
        exists|keep: Seq<bool>|
            {
                &&& keep.len() == view.view_elements.len()
                &&& forall|i: int|
                    0 <= i < keep.len() ==> #[trigger] predicate.ensures(
                        (&view.view_elements@[i].0, &view.view_elements@[i].1),
                        keep[i],
                    )
                &&& crate::reconcile::exact_clone::<V>() ==> element_views(r.view_elements@) == filtered(
                    view.view_elements@,
                    keep,
                    substitute_of(substitution),
                )
            },
{
    let ghost es = view.view_elements@;
    let ghost mut keep: Seq<bool> = Seq::empty();
    let mut pending = crate::pattern::combine::reversed(view.view_elements);
    let n = pending.len();
    let mut out: Vec<(GraphClass<Extra>, Pattern<V>)> = Vec::new();
    proof {
        assert(element_views(out@) =~= filtered(es.take(0), keep, substitute_of(substitution)));
    }
    while pending.len() > 0
        invariant
            n == es.len(),
            pending.len() <= n,
            keep.len() + pending.len() == n,
            forall|k: int| 0 <= k < pending.len() ==> #[trigger] pending@[k] == es[n - 1 - k],
            forall|c: &GraphClass<Extra>, p: &Pattern<V>| #[trigger] predicate.requires((c, p)),
            forall|i: int| 0 <= i < keep.len() ==> #[trigger] predicate.ensures((&es[i].0, &es[i].1), keep[i]),
            crate::reconcile::exact_clone::<V>() ==> element_views(out@) == filtered(es.take(keep.len() as int), keep, substitute_of(substitution)),
        decreases pending.len(),
    {
        let ghost j = keep.len() as int;
        let (cls, p) = pending.pop().unwrap();
        proof {
            assert((cls, p) == es[j]);
        }
        let accepted = predicate(&cls, &p);
        let ghost before = out@;
        let ghost keep0 = keep;
        proof {
            keep = keep.push(accepted);
            assert(keep.drop_last() =~= keep0);
            assert(es.take(j + 1).drop_last() =~= es.take(j));
            assert(es.take(j + 1).last() == es[j]);
        }
        let ghost e = (cls, p);
        proof {
            if crate::reconcile::exact_clone::<V>() {
                lemma_filtered_prefix(es.take(j), keep.drop_last(), keep, substitute_of(substitution));
                assert(element_views(before) == filtered(es.take(j), keep, substitute_of(substitution)));
            }
        }
        if accepted {
            out.push((cls, p));
            proof {
                assert(element_views(out@) =~= element_views(before).push((e.0, e.1@)));
            }
        } else {
            match &substitution {
                Substitution::ReplaceWith(filler) => {
                    let copy = crate::pattern_graph::copy_of(filler);
                    out.push((cls, copy));
                    proof {
                        assert(element_views(out@) =~= element_views(before).push((e.0, copy@)));
                        assert(substitute_of(substitution) == Some(filler@));
                    }
                },
                _ => {
                    proof {
                        assert(substitute_of(substitution) is None);
                    }
                },
            }
        }
    }
    proof {
        assert(es.take(n as int) =~= es);
    }
    GraphView { view_query: view.view_query, view_elements: out }
}

/// Only the marks of the elements present matter.
pub proof fn lemma_filtered_prefix<Extra, V>(
    es: Seq<(GraphClass<Extra>, Pattern<V>)>,
    a: Seq<bool>,
    b: Seq<bool>,
    substitute: Option<Tree<V>>,
)
    requires
        a.len() >= es.len(),
        b.len() >= es.len(),
        forall|i: int| 0 <= i < es.len() ==> a[i] == b[i],
    ensures
        filtered(es, a, substitute) == filtered(es, b, substitute),
    decreases es.len(),
{
    if es.len() > 0 {
        lemma_filtered_prefix(es.drop_last(), a, b, substitute);
    }
}

/// Folds `f` over the elements in order, starting from `init`.
pub fn fold_graph<Extra, V, Q, M, F>(f: F, init: M, view: &GraphView<Extra, V, Q>) -> (r: M)
    where
        F: Fn(M, &GraphClass<Extra>, &Pattern<V>) -> M,
    requires
        forall|m: M, c: &GraphClass<Extra>, p: &Pattern<V>| #[trigger] f.requires((m, c, p)),
    ensures
        exists|accs: Seq<M>|
            {
                &&& accs.len() == view.view_elements.len() + 1
                &&& accs[0] == init
                &&& forall|i: int|
                    0 <= i < view.view_elements.len() ==> #[trigger] f.ensures(
                        (accs[i], &view.view_elements@[i].0, &view.view_elements@[i].1),
                        accs[i + 1],
                    )
                &&& r == accs.last()
            },
{
    let ghost mut accs: Seq<M> = seq![init];
    let mut acc = init;
    let mut i: usize = 0;
    while i < view.view_elements.len()
        invariant
            i <= view.view_elements.len(),
            forall|m: M, c: &GraphClass<Extra>, p: &Pattern<V>| #[trigger] f.requires((m, c, p)),
            accs.len() == i + 1,
            accs[0] == init,
            acc == accs.last(),
            forall|k: int|
                0 <= k < i ==> #[trigger] f.ensures(
                    (accs[k], &view.view_elements@[k].0, &view.view_elements@[k].1),
                    accs[k + 1],
                ),
        decreases view.view_elements.len() - i,
    {
        let e = &view.view_elements[i];
        let ghost prev = acc;
        acc = f(acc, &e.0, &e.1);
        proof {
            accs = accs.push(acc);
            assert(accs[i as int] == prev);
        }
        i = i + 1;
    }
    acc
}

} // verus!
