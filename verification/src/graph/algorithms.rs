use vstd::prelude::*;

use crate::graph::graph_classifier::{Classify, GraphClass, GraphValue};
use crate::graph::graph_query::{option_tree, GraphQuery};
use crate::pattern::{lemma_pattern_view, patterns_forest, Pattern};
use crate::pattern_graph::{class_of, copy_of, deterministic};
use crate::reconcile::exact_clone;
use crate::subject::{holds_symbol, lemma_symbol_set_push, symbol_set, symbol_texts, Symbol};
use crate::tree::{cloned_tree, Tree};

mod traversal;

pub use traversal::{
    all_paths, answers_by_identity, bfs, closed_prefix, component_trees, components_upto, connected_components, crossing, dfs, ends_in_nodes, found_before, grown_from_first, has_path,
    extends_to, is_connected, is_neighbor, held_in, is_walk, lemma_visits_are_reachable, neighbors_among, neighbors_of, reachable_ids,
    reaches, visits_from,
};

verus! {

// ---------------------------------------------------------------------------
// Queries by role
// ---------------------------------------------------------------------------

/// The patterns of `s` to which the classifier gives the role picked by `annotation`
/// (annotations when true, walks when false).
pub open spec fn of_role<Extra, V, C: Classify<Extra, V>>(cl: C, s: Seq<Tree<V>>, annotation: bool) -> Seq<Tree<V>> {
    s.filter(|c: Tree<V>| if annotation { class_of(cl, c) is GAnnotation } else { class_of(cl, c) is GWalk })
}

/// The containers of `element` in `q` to which the classifier gives the picked role.
fn containers_of_role<Extra, V: GraphValue + Clone, Q: GraphQuery<V>, C: Classify<Extra, V>>(
    classifier: &C,
    q: &Q,
    element: &Pattern<V>,
    annotation: bool,
) -> (r: Vec<Pattern<V>>)
    requires
        classifier.ready(),
        deterministic(*classifier),
    ensures
        exact_clone::<V>() ==> patterns_forest(r@) == of_role(*classifier, q.containers_spec(element@), annotation),
{
    let containers = q.query_containers(element);
    let ghost s = patterns_forest(containers@);
    let ghost pred = |c: Tree<V>| if annotation { class_of(*classifier, c) is GAnnotation } else { class_of(*classifier, c) is GWalk };
    let mut r: Vec<Pattern<V>> = Vec::new();
    let mut i: usize = 0;
    proof {
        assert(patterns_forest(r@) =~= s.take(0).filter(pred)) by {
            reveal(Seq::filter);
        }
    }
    while i < containers.len()
        invariant
            i <= containers.len(),
            s == patterns_forest(containers@),
            classifier.ready(),
            deterministic(*classifier),
            pred == (|c: Tree<V>| if annotation { class_of(*classifier, c) is GAnnotation } else { class_of(*classifier, c) is GWalk }),
            exact_clone::<V>() ==> patterns_forest(r@) == s.take(i as int).filter(pred),
        decreases containers.len() - i,
    {
        let c = &containers[i];
        let cls = classifier.classify(c);
        proof {
            assert(classifier.classified(c@, class_of(*classifier, c@)));
            assert(s[i as int] == c@);
            crate::tree::lemma_take_step(s, i as int);
            s.take(i as int).lemma_filter_push(s[i as int], pred);
        }
        let wanted = match cls {
            GraphClass::GAnnotation => annotation,
            GraphClass::GWalk => !annotation,
            _ => false,
        };
        if wanted {
            let ghost before = r@;
            let copy = copy_of(c);
            r.push(copy);
            proof {
                if exact_clone::<V>() {
                    assert(patterns_forest(r@) =~= patterns_forest(before).push(c@));
                }
            }
        }
        i = i + 1;
    }
    proof {
        assert(s.take(containers.len() as int) =~= s);
    }
    r
}

/// The containers of `element` that the classifier makes annotations.
pub fn query_annotations_of<Extra, V: GraphValue + Clone, Q: GraphQuery<V>, C: Classify<Extra, V>>(
    classifier: &C,
    q: &Q,
    element: &Pattern<V>,
) -> (r: Vec<Pattern<V>>)
    requires
        classifier.ready(),
        deterministic(*classifier),
    ensures
        exact_clone::<V>() ==> patterns_forest(r@) == of_role(*classifier, q.containers_spec(element@), true),
{
    containers_of_role(classifier, q, element, true)
}

/// The containers of `element` that the classifier makes walks.
pub fn query_walks_containing<Extra, V: GraphValue + Clone, Q: GraphQuery<V>, C: Classify<Extra, V>>(
    classifier: &C,
    q: &Q,
    element: &Pattern<V>,
) -> (r: Vec<Pattern<V>>)
    requires
        classifier.ready(),
        deterministic(*classifier),
    ensures
        exact_clone::<V>() ==> patterns_forest(r@) == of_role(*classifier, q.containers_spec(element@), false),
{
    containers_of_role(classifier, q, element, false)
}

/// The elements of `container` whose identity differs from that of `element`, in order.
pub open spec fn co_members<V: GraphValue>(element: Tree<V>, container: Tree<V>) -> Seq<Tree<V>> {
    container.children.filter(|c: Tree<V>| c.value.identity_text() != element.value.identity_text())
}

/// The elements of `container` other than `element` (by identity), in order: copies,
/// each a clone of the element it copies.
pub fn query_co_members<V: GraphValue + Clone, Q: GraphQuery<V>>(
    _q: &Q,
    element: &Pattern<V>,
    container: &Pattern<V>,
) -> (r: Vec<Pattern<V>>)
    ensures
        r@.len() == co_members(element@, container@).len(),
        forall|k: int| 0 <= k < r@.len() ==> cloned_tree(co_members(element@, container@)[k], #[trigger] r@[k]@),
        exact_clone::<V>() ==> patterns_forest(r@) == co_members(element@, container@),
{
    proof {
        lemma_pattern_view(*element);
        lemma_pattern_view(*container);
    }
    let elem_id = element.value.identify();
    let ghost s = container@.children;
    let ghost pred = |c: Tree<V>| c.value.identity_text() != element@.value.identity_text();
    let mut r: Vec<Pattern<V>> = Vec::new();
    let mut i: usize = 0;
    proof {
        assert(patterns_forest(r@) =~= s.take(0).filter(pred)) by {
            reveal(Seq::filter);
        }
    }
    while i < container.elements.len()
        invariant
            i <= container.elements.len(),
            s == container@.children,
            s.len() == container.elements.len(),
            forall|k: int| 0 <= k < container.elements.len() ==> #[trigger] s[k] == container.elements@[k]@,
            elem_id@ == element@.value.identity_text(),
            pred == (|c: Tree<V>| c.value.identity_text() != element@.value.identity_text()),
            exact_clone::<V>() ==> patterns_forest(r@) == s.take(i as int).filter(pred),
            r@.len() == s.take(i as int).filter(pred).len(),
            forall|k: int| 0 <= k < r@.len() ==> cloned_tree(s.take(i as int).filter(pred)[k], #[trigger] r@[k]@),
        decreases container.elements.len() - i,
    {
        let e = &container.elements[i];
        proof {
            lemma_pattern_view(*e);
            crate::tree::lemma_take_step(s, i as int);
            s.take(i as int).lemma_filter_push(s[i as int], pred);
        }
        if !(*e.value.identify() == *elem_id) {
            let ghost before = r@;
            let copy = copy_of(e);
            r.push(copy);
            proof {
                if exact_clone::<V>() {
                    assert(patterns_forest(r@) =~= patterns_forest(before).push(e@));
                }
                assert forall|k: int| 0 <= k < r@.len() implies cloned_tree(s.take(i + 1).filter(pred)[k], #[trigger] r@[k]@) by {
                    if k < before.len() {
                        assert(r@[k] == before[k]);
                    }
                }
            }
        }
        i = i + 1;
    }
    proof {
        assert(s.take(container.elements.len() as int) =~= s);
    }
    r
}

// ---------------------------------------------------------------------------
// Ordering
// ---------------------------------------------------------------------------

/// The forward neighbours of `n` reached through `rels`: the targets of those whose
/// source has `n`'s identity, in order.
pub open spec fn forward_among<V: GraphValue + Clone, Q: GraphQuery<V>>(q: Q, n: Tree<V>, rels: Seq<Tree<V>>) -> Seq<Tree<V>>
    decreases rels.len(),
{
    if rels.len() == 0 {
        Seq::empty()
    } else {
        let r = rels.last();
        forward_among(q, n, rels.drop_last()) + if q.source_spec(r) is Some && (q.source_spec(r)->Some_0).value.identity_text()
            == n.value.identity_text() && q.target_spec(r) is Some {
            seq![q.target_spec(r)->Some_0]
        } else {
            Seq::empty()
        }
    }
}

/// The forward neighbours of `n` in `q`.
pub open spec fn forward_of<V: GraphValue + Clone, Q: GraphQuery<V>>(q: Q, n: Tree<V>) -> Seq<Tree<V>> {
    forward_among(q, n, q.incident_spec(n))
}

/// Every target that `q` names is one of its nodes.
pub open spec fn targets_in_nodes<V: GraphValue + Clone, Q: GraphQuery<V>>(q: Q) -> bool {
    forall|r: Tree<V>| #[trigger] q.target_spec(r) is Some ==> q.nodes_spec().contains(q.target_spec(r)->Some_0)
}

/// The identities of the nodes of `q`.
pub open spec fn node_ids<V: GraphValue + Clone, Q: GraphQuery<V>>(q: Q) -> Set<Seq<char>> {
    q.nodes_spec().map_values(|n: Tree<V>| n.value.identity_text()).to_set()
}

/// The identities of a sequence of patterns.
pub open spec fn pattern_ids<V: GraphValue>(s: Seq<Pattern<V>>) -> Seq<Seq<char>> {
    s.map_values(|p: Pattern<V>| p@.value.identity_text())
}

/// A forward neighbour is a node.
proof fn lemma_forward_in_nodes<V: GraphValue + Clone, Q: GraphQuery<V>>(q: Q, n: Tree<V>, rels: Seq<Tree<V>>, k: int)
    requires
        targets_in_nodes(q),
        0 <= k < forward_among(q, n, rels).len(),
    ensures
        node_ids(q).contains(forward_among(q, n, rels)[k].value.identity_text()),
        q.nodes_spec().contains(forward_among(q, n, rels)[k]),
    decreases rels.len(),
{
    let prev = forward_among(q, n, rels.drop_last());
    if k < prev.len() {
        lemma_forward_in_nodes(q, n, rels.drop_last(), k);
    } else {
        let t = q.target_spec(rels.last())->Some_0;
        assert(q.nodes_spec().contains(t));
        let j = choose|j: int| 0 <= j < q.nodes_spec().len() && q.nodes_spec()[j] == t;
        assert(q.nodes_spec().map_values(|m: Tree<V>| m.value.identity_text())[j] == t.value.identity_text());
    }
}

// ---------------------------------------------------------------------------
// Laws of forward neighbours
// ---------------------------------------------------------------------------

/// Every relationship among `rels` whose source has `n`'s identity leads forward to its
/// target, whatever that target is (`n` itself included).
proof fn lemma_forward_among_targets<V: GraphValue + Clone, Q: GraphQuery<V>>(
    q: Q,
    n: Tree<V>,
    rels: Seq<Tree<V>>,
    r: Tree<V>,
    t: Tree<V>,
)
    requires
        rels.contains(r),
        q.source_spec(r) is Some,
        (q.source_spec(r)->Some_0).value.identity_text() == n.value.identity_text(),
        q.target_spec(r) == Some(t),
    ensures
        forward_among(q, n, rels).contains(t),
    decreases rels.len(),
{
    let prev = forward_among(q, n, rels.drop_last());
    if rels.last() == r {
        assert(forward_among(q, n, rels) == prev + seq![t]);
        assert(forward_among(q, n, rels)[prev.len() as int] == t);
    } else {
        let j = choose|j: int| 0 <= j < rels.len() && rels[j] == r;
        assert(j < rels.len() - 1);
        assert(rels.drop_last()[j] == r);
        lemma_forward_among_targets(q, n, rels.drop_last(), r, t);
        let k = choose|k: int| 0 <= k < prev.len() && prev[k] == t;
        assert(forward_among(q, n, rels)[k] == t);
    }
}

/// The forward neighbours of a node include the target of every relationship incident
/// to it whose source has its identity, a relationship from the node to itself
/// included.
pub proof fn lemma_forward_includes_every_target<V: GraphValue + Clone, Q: GraphQuery<V>>(
    q: Q,
    n: Tree<V>,
    r: Tree<V>,
    t: Tree<V>,
)
    requires
        q.incident_spec(n).contains(r),
        q.source_spec(r) is Some,
        (q.source_spec(r)->Some_0).value.identity_text() == n.value.identity_text(),
        q.target_spec(r) == Some(t),
    ensures
        forward_of(q, n).contains(t),
{
    lemma_forward_among_targets(q, n, q.incident_spec(n), r, t);
}

/// Every forward neighbour drawn from `rels` is the target of one of them whose source
/// has `n`'s identity.
proof fn lemma_forward_among_only_targets<V: GraphValue + Clone, Q: GraphQuery<V>>(
    q: Q,
    n: Tree<V>,
    rels: Seq<Tree<V>>,
    t: Tree<V>,
)
    requires
        forward_among(q, n, rels).contains(t),
    ensures
        exists|r: Tree<V>|
            #[trigger] rels.contains(r) && q.source_spec(r) is Some && (q.source_spec(r)->Some_0).value.identity_text()
                == n.value.identity_text() && q.target_spec(r) == Some(t),
    decreases rels.len(),
{
    let prev = forward_among(q, n, rels.drop_last());
    let r = rels.last();
    let extra: Seq<Tree<V>> = if q.source_spec(r) is Some && (q.source_spec(r)->Some_0).value.identity_text()
        == n.value.identity_text() && q.target_spec(r) is Some {
        seq![q.target_spec(r)->Some_0]
    } else {
        Seq::empty()
    };
    assert(forward_among(q, n, rels) == prev + extra);
    crate::tree::lemma_contains_add(prev, extra, t);
    if prev.contains(t) {
        lemma_forward_among_only_targets(q, n, rels.drop_last(), t);
        let r0 = choose|r0: Tree<V>|
            #[trigger] rels.drop_last().contains(r0) && q.source_spec(r0) is Some && (q.source_spec(r0)->Some_0).value.identity_text()
                == n.value.identity_text() && q.target_spec(r0) == Some(t);
        let j = choose|j: int| 0 <= j < rels.drop_last().len() && rels.drop_last()[j] == r0;
        assert(rels[j] == r0);
        assert(rels.contains(r0));
    } else {
        let j = choose|j: int| 0 <= j < extra.len() && extra[j] == t;
        assert(rels[rels.len() - 1] == r);
        assert(rels.contains(r));
    }
}

/// The forward neighbours of a node are exactly the targets of the relationships
/// incident to it whose source has its identity: each of them is such a target.
pub proof fn lemma_forward_only_targets<V: GraphValue + Clone, Q: GraphQuery<V>>(q: Q, n: Tree<V>, t: Tree<V>)
    requires
        forward_of(q, n).contains(t),
    ensures
        exists|r: Tree<V>|
            #[trigger] q.incident_spec(n).contains(r) && q.source_spec(r) is Some && (q.source_spec(r)->Some_0).value.identity_text()
                == n.value.identity_text() && q.target_spec(r) == Some(t),
{
    lemma_forward_among_only_targets(q, n, q.incident_spec(n), t);
}

/// A relationship from a node to a node of the same identity is a forward cycle, so
/// `topological_sort` gives no order and `has_cycle` answers `true` (where cloning is
/// exact and node identities are distinct, as their contracts state).
pub proof fn lemma_self_loop_is_cycle<V: GraphValue + Clone, Q: GraphQuery<V>>(
    q: Q,
    n: Tree<V>,
    r: Tree<V>,
    t: Tree<V>,
)
    requires
        q.nodes_spec().contains(n),
        q.incident_spec(n).contains(r),
        q.source_spec(r) is Some,
        (q.source_spec(r)->Some_0).value.identity_text() == n.value.identity_text(),
        q.target_spec(r) == Some(t),
        t.value.identity_text() == n.value.identity_text(),
    ensures
        has_forward_cycle(q),
{
    lemma_forward_includes_every_target(q, n, r, t);
    let path = seq![n];
    assert(forward_path(q, path));
    assert(path.last() == n);
    assert(forall|k: int| 0 <= k < path.len() ==> q.nodes_spec().contains(#[trigger] path[k]));
    assert(forward_of(q, path.last()).contains(t));
}

/// Where node identities are distinct, a result that meets `topological_sort`'s
/// contract is `None` on a graph with a relationship from a node to itself.
pub proof fn lemma_self_loop_has_no_order<V: GraphValue + Clone, Q: GraphQuery<V>>(
    q: Q,
    n: Tree<V>,
    r: Tree<V>,
    t: Tree<V>,
    order: Option<Vec<Pattern<V>>>,
)
    requires
        tree_ids(q.nodes_spec()).no_duplicates() ==> (order is None <==> has_forward_cycle(q)),
        tree_ids(q.nodes_spec()).no_duplicates(),
        q.nodes_spec().contains(n),
        q.incident_spec(n).contains(r),
        q.source_spec(r) is Some,
        (q.source_spec(r)->Some_0).value.identity_text() == n.value.identity_text(),
        q.target_spec(r) == Some(t),
        t.value.identity_text() == n.value.identity_text(),
    ensures
        order is None,
{
    lemma_self_loop_is_cycle(q, n, r, t);
}

/// The forward neighbours of `node`.
fn forward_neighbors<V: GraphValue + Clone, Q: GraphQuery<V>>(q: &Q, node: &Pattern<V>) -> (r: Vec<Pattern<V>>)
    ensures
        exact_clone::<V>() ==> patterns_forest(r@) == forward_of(*q, node@),
{
    proof {
        lemma_pattern_view(*node);
    }
    let node_id = node.value.identify();
    let rels = q.query_incident_rels(node);
    let ghost s = patterns_forest(rels@);
    let mut r: Vec<Pattern<V>> = Vec::new();
    let mut i: usize = 0;
    proof {
        assert(patterns_forest(r@) =~= forward_among(*q, node@, s.take(0)));
    }
    while i < rels.len()
        invariant
            i <= rels.len(),
            s == patterns_forest(rels@),
            exact_clone::<V>() ==> s == q.incident_spec(node@),
            node_id@ == node@.value.identity_text(),
            exact_clone::<V>() ==> patterns_forest(r@) == forward_among(*q, node@, s.take(i as int)),
        decreases rels.len() - i,
    {
        let rel = &rels[i];
        proof {
            crate::tree::lemma_take_step(s, i as int);
            assert(s[i as int] == rel@);
        }
        let ghost before = r@;
        match q.query_source(rel) {
            Some(src) => {
                proof {
                    lemma_pattern_view(src);
                }
                if *src.value.identify() == *node_id {
                    match q.query_target(rel) {
                        Some(tgt) => {
                            r.push(tgt);
                            proof {
                                assert(patterns_forest(r@) =~= patterns_forest(before).push(tgt@));
                            }
                        },
                        None => {},
                    }
                }
            },
            None => {},
        }
        proof {
            if exact_clone::<V>() {
                assert(patterns_forest(r@) =~= forward_among(*q, node@, s.take(i + 1)));
            }
        }
        i = i + 1;
    }
    proof {
        assert(s.take(rels.len() as int) =~= s);
    }
    r
}

/// The identities of a sequence extended by one pattern.
proof fn lemma_pattern_ids_push<V: GraphValue>(s: Seq<Pattern<V>>, p: Pattern<V>)
    ensures
        pattern_ids(s.push(p)) == pattern_ids(s).push(p@.value.identity_text()),
{
    assert(pattern_ids(s.push(p)) =~= pattern_ids(s).push(p@.value.identity_text()));
}

/// The texts of a sequence of symbols extended by one.
proof fn lemma_symbol_texts_push(s: Seq<Symbol>, x: Symbol)
    ensures
        symbol_texts(s.push(x)) == symbol_texts(s).push(x@),
{
    assert(symbol_texts(s.push(x)) =~= symbol_texts(s).push(x@));
}

/// The identities of a stack of frames extended by one.
proof fn lemma_frame_ids_push<V: GraphValue>(s: Seq<(Pattern<V>, Vec<Pattern<V>>, usize)>, f: (Pattern<V>, Vec<Pattern<V>>, usize))
    ensures
        frame_ids(s.push(f)) == frame_ids(s).push(f.0@.value.identity_text()),
{
    assert(frame_ids(s.push(f)) =~= frame_ids(s).push(f.0@.value.identity_text()));
}

/// Work left on a stack of frames: the neighbours not yet looked at, plus one per frame.
spec fn frame_work<V>(s: Seq<(Pattern<V>, Vec<Pattern<V>>, usize)>) -> int
    decreases s.len(),
{
    if s.len() == 0 {
        0
    } else {
        frame_work(s.drop_last()) + (s.last().1.len() - s.last().2) + 1
    }
}

/// No frame has looked past its neighbours, so the work left is not negative.
proof fn lemma_frame_work_nonneg<V>(s: Seq<(Pattern<V>, Vec<Pattern<V>>, usize)>)
    requires
        forall|k: int| 0 <= k < s.len() ==> (#[trigger] s[k]).2 <= s[k].1@.len(),
    ensures
        frame_work(s) >= 0,
    decreases s.len(),
{
    if s.len() > 0 {
        assert(s.last().2 <= s.last().1@.len());
        lemma_frame_work_nonneg(s.drop_last());
    }
}

/// The identities of the nodes of a stack of frames.
spec fn frame_ids<V: GraphValue>(s: Seq<(Pattern<V>, Vec<Pattern<V>>, usize)>) -> Seq<Seq<char>> {
    s.map_values(|f: (Pattern<V>, Vec<Pattern<V>>, usize)| f.0@.value.identity_text())
}


/// The identities of a sequence of trees.
pub open spec fn tree_ids<V: GraphValue>(s: Seq<Tree<V>>) -> Seq<Seq<char>> {
    s.map_values(|x: Tree<V>| x.value.identity_text())
}

/// The identity of the `k`-th forward neighbour of `t`.
pub open spec fn neighbor_id<V: GraphValue + Clone, Q: GraphQuery<V>>(q: Q, t: Tree<V>, k: int) -> Seq<char> {
    forward_of(q, t)[k].value.identity_text()
}

/// Each member of `s` comes before, by identity, every one of its forward neighbours.
pub open spec fn ordered_forward<V: GraphValue + Clone, Q: GraphQuery<V>>(q: Q, s: Seq<Tree<V>>) -> bool {
    forall|i: int, k: int|
        0 <= i < s.len() && 0 <= k < forward_of(q, s[i]).len() ==> tree_ids(s.subrange(i + 1, s.len() as int)).contains(
            #[trigger] neighbor_id(q, s[i], k),
        )
}

/// Each member of `s` comes after, by identity, every one of its forward neighbours.
spec fn finished_after<V: GraphValue + Clone, Q: GraphQuery<V>>(q: Q, s: Seq<Tree<V>>) -> bool {
    forall|i: int, k: int|
        0 <= i < s.len() && 0 <= k < forward_of(q, s[i]).len() ==> tree_ids(s.take(i)).contains(
            #[trigger] neighbor_id(q, s[i], k),
        )
}

/// Each member of `path` after the first is a forward neighbour of the one before.
pub open spec fn forward_path<V: GraphValue + Clone, Q: GraphQuery<V>>(q: Q, path: Seq<Tree<V>>) -> bool {
    forall|k: int| 0 <= k < path.len() - 1 ==> #[trigger] forward_of(q, path[k]).contains(path[k + 1])
}

/// Some forward path through nodes leads back to the identity it started from.
pub open spec fn has_forward_cycle<V: GraphValue + Clone, Q: GraphQuery<V>>(q: Q) -> bool {
    exists|path: Seq<Tree<V>>, t: Tree<V>|
        path.len() >= 1 && forward_path(q, path) && #[trigger] forward_of(q, path.last()).contains(t)
            && t.value.identity_text() == path[0].value.identity_text()
            && (forall|k: int| 0 <= k < path.len() ==> q.nodes_spec().contains(#[trigger] path[k]))
}

/// Read backwards, a sequence finished after its neighbours is ordered before them.
proof fn lemma_reverse_ordered<V: GraphValue + Clone, Q: GraphQuery<V>>(q: Q, s: Seq<Tree<V>>)
    requires
        finished_after(q, s),
    ensures
        ordered_forward(q, s.reverse()),
{
    let r = s.reverse();
    assert forall|i: int, k: int| 0 <= i < r.len() && 0 <= k < forward_of(q, r[i]).len() implies tree_ids(
        r.subrange(i + 1, r.len() as int),
    ).contains(#[trigger] neighbor_id(q, r[i], k)) by {
        let a = s.len() - 1 - i;
        assert(r[i] == s[a]);
        let x = neighbor_id(q, s[a], k);
        assert(tree_ids(s.take(a)).contains(x));
        let b = choose|b: int| 0 <= b < tree_ids(s.take(a)).len() && tree_ids(s.take(a))[b] == x;
        let j = s.len() - 1 - b;
        assert(r[j] == s[b]);
        assert(tree_ids(r.subrange(i + 1, r.len() as int))[j - i - 1] == x);
    }
}

/// Appending a node whose forward neighbours are all among the earlier ones keeps
/// every member after its neighbours.
proof fn lemma_finished_push<V: GraphValue + Clone, Q: GraphQuery<V>>(q: Q, s: Seq<Tree<V>>, t: Tree<V>, earlier: Set<Seq<char>>)
    requires
        finished_after(q, s),
        earlier == tree_ids(s).to_set(),
        forall|k: int| 0 <= k < forward_of(q, t).len() ==> earlier.contains(#[trigger] neighbor_id(q, t, k)),
    ensures
        finished_after(q, s.push(t)),
{
    let n = s.push(t);
    assert forall|a: int, k: int| 0 <= a < n.len() && 0 <= k < forward_of(q, n[a]).len() implies tree_ids(n.take(a)).contains(
        #[trigger] neighbor_id(q, n[a], k),
    ) by {
        if a < s.len() {
            assert(n[a] == s[a]);
            assert(n.take(a) =~= s.take(a));
        } else {
            assert(n[a] == t);
            assert(n.take(a) =~= s);
            assert(earlier.contains(neighbor_id(q, t, k)));
        }
    }
}

/// The trees of the nodes of a stack of frames.
spec fn frame_trees<V>(s: Seq<(Pattern<V>, Vec<Pattern<V>>, usize)>) -> Seq<Tree<V>> {
    s.map_values(|f: (Pattern<V>, Vec<Pattern<V>>, usize)| f.0@)
}

/// A frame of the depth-first walk: a node, its forward neighbours, and how many of
/// them have been looked at.
type Frame<V> = (Pattern<V>, Vec<Pattern<V>>, usize);

/// What holds of the depth-first walk whatever the clones: the identities on the
/// stack and the finished ones are distinct, disjoint and among `ids`, and there is one
/// identity on the stack per frame.
spec fn walk_core<V>(
    ids: Set<Seq<char>>,
    stack: Seq<Frame<V>>,
    in_stack: Seq<Symbol>,
    done: Seq<Symbol>,
) -> bool {
    &&& ids.finite()
    &&& forall|k: int| 0 <= k < stack.len() ==> (#[trigger] stack[k]).2 <= stack[k].1@.len()
    &&& in_stack.len() == stack.len()
    &&& symbol_texts(in_stack).no_duplicates()
    &&& symbol_texts(done).no_duplicates()
    &&& symbol_set(in_stack).subset_of(ids)
    &&& symbol_set(done).subset_of(ids)
    &&& symbol_set(in_stack).disjoint(symbol_set(done))
}

/// What holds of the depth-first walk between steps: the frames form a forward path
/// whose identities are those on the stack; each frame has looked at no more than its
/// neighbours, all of which (but the one being walked) are finished; finished nodes
/// are listed after their neighbours; and every identity met is a node's.
spec fn walk_state<V: GraphValue + Clone, Q: GraphQuery<V>>(
    q: Q,
    ids: Set<Seq<char>>,
    stack: Seq<Frame<V>>,
    in_stack: Seq<Symbol>,
    done: Seq<Symbol>,
    result: Seq<Pattern<V>>,
) -> bool {
    &&& exact_clone::<V>()
    &&& targets_in_nodes(q)
    &&& ids == node_ids(q)
    &&& ids.finite()
    &&& forall|k: int| 0 <= k < stack.len() ==> (#[trigger] stack[k]).2 <= stack[k].1@.len()
    &&& forall|k: int| 0 <= k < stack.len() ==> patterns_forest((#[trigger] stack[k]).1@) == forward_of(q, stack[k].0@)
    &&& symbol_texts(in_stack) == frame_ids(stack)
    &&& symbol_texts(in_stack).no_duplicates()
    &&& symbol_set(in_stack).subset_of(ids)
    &&& symbol_set(done).subset_of(ids)
    &&& symbol_texts(done).no_duplicates()
    &&& forall|k: int| 0 <= k < stack.len() ==> q.nodes_spec().contains((#[trigger] stack[k]).0@)
    &&& forall|k: int| 0 <= k < result.len() ==> q.nodes_spec().contains((#[trigger] result[k])@)
    &&& symbol_set(in_stack).disjoint(symbol_set(done))
    &&& symbol_texts(done) == pattern_ids(result)
    &&& finished_after(q, patterns_forest(result))
    &&& forall|d: int|
        0 <= d < stack.len() - 1 ==> (#[trigger] stack[d]).2 >= 1 && stack[d + 1].0@ == forward_of(q, stack[d].0@)[stack[d].2 - 1]
    &&& forall|d: int, k: int|
        0 <= d < stack.len() && 0 <= k < (#[trigger] stack[d]).2 - (if d < stack.len() - 1 {
            1int
        } else {
            0int
        }) ==> symbol_set(done).contains(#[trigger] forward_of(q, stack[d].0@)[k].value.identity_text())
}

/// The identities met so far.
spec fn seen_ids(in_stack: Seq<Symbol>, done: Seq<Symbol>) -> Set<Seq<char>> {
    symbol_set(in_stack).union(symbol_set(done))
}

/// Finishes the node of the top frame, all of whose neighbours are finished.
fn finish_node<V: GraphValue + Clone, Q: GraphQuery<V>>(
    q: &Q,
    Ghost(ids): Ghost<Set<Seq<char>>>,
    node: Pattern<V>,
    Ghost(frame): Ghost<Frame<V>>,
    stack: &Vec<Frame<V>>,
    in_stack: &mut Vec<Symbol>,
    done: &mut Vec<Symbol>,
    result: &mut Vec<Pattern<V>>,
)
    requires
        walk_core(ids, stack@.push(frame), old(in_stack)@, old(done)@),
        exact_clone::<V>() ==> walk_state(*q, ids, stack@.push(frame), old(in_stack)@, old(done)@, old(result)@),
        frame.0 == node,
        frame.2 >= frame.1@.len(),
    ensures
        walk_core(ids, stack@, final(in_stack)@, final(done)@),
        exact_clone::<V>() ==> walk_state(*q, ids, stack@, final(in_stack)@, final(done)@, final(result)@),
        seen_ids(final(in_stack)@, final(done)@) == seen_ids(old(in_stack)@, old(done)@),
        symbol_set(old(done)@).subset_of(symbol_set(final(done)@)),
{
    let ghost st0 = stack@.push(frame);
    let ghost in0 = in_stack@;
    let ghost done_before = done@;
    let ghost res0 = result@;
    let nid = in_stack.pop().unwrap();
    let ghost nt = nid@;
    done.push(nid);
    result.push(node);
    proof {
        if exact_clone::<V>() {
        lemma_pattern_view(frame.0);
        assert(st0.drop_last() =~= stack@);
        assert(st0.last() == frame);
        assert(in0.drop_last() =~= in_stack@);
        lemma_frame_ids_push(st0.drop_last(), st0.last());
        assert(in_stack@.push(in0.last()) =~= in0);
        lemma_symbol_texts_push(in_stack@, in0.last());
        assert(symbol_texts(in0).last() == nt);
        assert(symbol_texts(in_stack@) =~= symbol_texts(in0).drop_last());
        assert(frame_ids(stack@) =~= frame_ids(st0).drop_last());
        assert forall|a: int, b: int| 0 <= a < b < symbol_texts(in_stack@).len() implies symbol_texts(in_stack@)[a] != symbol_texts(in_stack@)[b] by {
            assert(symbol_texts(in0)[a] == symbol_texts(in_stack@)[a]);
            assert(symbol_texts(in0)[b] == symbol_texts(in_stack@)[b]);
        }
        lemma_symbol_set_push(in_stack@, in0.last());
        lemma_symbol_set_push(done_before, nid);
        lemma_symbol_texts_push(done_before, nid);
        lemma_pattern_ids_push(res0, frame.0);
        let old_res = patterns_forest(res0);
        assert(patterns_forest(result@) =~= old_res.push(frame.0@));
        assert forall|k: int| 0 <= k < forward_of(*q, frame.0@).len() implies symbol_set(done_before).contains(#[trigger] neighbor_id(*q, frame.0@, k)) by {
            assert(st0[st0.len() - 1] == frame);
            assert(forward_of(*q, st0[st0.len() - 1].0@)[k].value.identity_text() == neighbor_id(*q, frame.0@, k));
        }
        assert(tree_ids(old_res) =~= pattern_ids(res0));
        lemma_finished_push(*q, old_res, frame.0@, symbol_set(done_before));
        assert(symbol_set(in0).contains(nt)) by {
            assert(symbol_texts(in0)[in0.len() - 1] == nt);
        }
        assert(!symbol_texts(done_before).contains(nt)) by {
            if symbol_texts(done_before).contains(nt) {
                let j = choose|j: int| 0 <= j < symbol_texts(done_before).len() && symbol_texts(done_before)[j] == nt;
                assert(symbol_set(done_before).contains(nt));
            }
        }
        assert(symbol_texts(done@) =~= symbol_texts(done_before).push(nt));
        assert forall|a: int, b: int| 0 <= a < b < symbol_texts(done@).len() implies symbol_texts(done@)[a] != symbol_texts(done@)[b] by {
            if b < done_before.len() {
                assert(symbol_texts(done_before)[a] == symbol_texts(done@)[a]);
                assert(symbol_texts(done_before)[b] == symbol_texts(done@)[b]);
            } else {
                assert(symbol_texts(done_before)[a] == symbol_texts(done@)[a]);
            }
        }
        assert(!symbol_set(in_stack@).contains(nt)) by {
            if symbol_set(in_stack@).contains(nt) {
                let j = choose|j: int| 0 <= j < symbol_texts(in_stack@).len() && symbol_texts(in_stack@)[j] == nt;
                assert(symbol_texts(in0)[j] == nt);
                assert(symbol_texts(in0)[in0.len() - 1] == nt);
            }
        }
        assert(seen_ids(in_stack@, done@) =~= seen_ids(in0, done_before));
        assert forall|d: int, k: int|
            0 <= d < stack@.len() && 0 <= k < (#[trigger] stack@[d]).2 - (if d < stack@.len() - 1 { 1int } else { 0int })
            implies symbol_set(done@).contains(#[trigger] forward_of(*q, stack@[d].0@)[k].value.identity_text()) by {
            assert(stack@[d] == st0[d]);
            if d == stack@.len() - 1 && k == st0[d].2 - 1 {
                assert(st0[d + 1].0@ == forward_of(*q, st0[d].0@)[st0[d].2 - 1]);
                assert(frame.0@.value.identity_text() == nt);
            }
        }
    }
    }
    proof {
        assert(in0.drop_last() =~= in_stack@);
        assert(in0.last() == in0[in0.len() - 1]);
        lemma_symbol_texts_push(in_stack@, in0.last());
        assert(in_stack@.push(in0.last()) =~= in0);
        lemma_symbol_set_push(in_stack@, in0.last());
        lemma_symbol_set_push(done_before, in0.last());
        lemma_symbol_texts_push(done_before, in0.last());
        assert(symbol_texts(in_stack@) =~= symbol_texts(in0).drop_last());
        assert forall|a: int, b: int| 0 <= a < b < symbol_texts(in_stack@).len() implies symbol_texts(in_stack@)[a] != symbol_texts(in_stack@)[b] by {
            assert(symbol_texts(in0)[a] == symbol_texts(in_stack@)[a]);
            assert(symbol_texts(in0)[b] == symbol_texts(in_stack@)[b]);
        }
        assert(symbol_texts(in0)[in0.len() - 1] == nt);
        assert(symbol_set(in0).contains(nt));
        assert(!symbol_set(in_stack@).contains(nt)) by {
            if symbol_set(in_stack@).contains(nt) {
                let j = choose|j: int| 0 <= j < symbol_texts(in_stack@).len() && symbol_texts(in_stack@)[j] == nt;
                assert(symbol_texts(in0)[j] == nt);
            }
        }
        assert(!symbol_texts(done_before).contains(nt)) by {
            if symbol_texts(done_before).contains(nt) {
                let j = choose|j: int| 0 <= j < symbol_texts(done_before).len() && symbol_texts(done_before)[j] == nt;
                assert(symbol_set(done_before).contains(nt));
            }
        }
        assert(symbol_texts(done@) =~= symbol_texts(done_before).push(nt));
        assert forall|a: int, b: int| 0 <= a < b < symbol_texts(done@).len() implies symbol_texts(done@)[a] != symbol_texts(done@)[b] by {
            assert(symbol_texts(done_before)[a] == symbol_texts(done@)[a]);
            if b < done_before.len() {
                assert(symbol_texts(done_before)[b] == symbol_texts(done@)[b]);
            }
        }
        assert forall|k: int| 0 <= k < stack@.len() implies (#[trigger] stack@[k]).2 <= stack@[k].1@.len() by {
            assert(stack@[k] == st0[k]);
        }
        assert(seen_ids(in_stack@, done@) =~= seen_ids(in0, done_before));
    }
}

/// Looks at the next neighbour of the top frame: a neighbour on the stack closes a
/// cycle (`true`); an unfinished one is walked next.
#[verifier::spinoff_prover]
fn visit_neighbor<V: GraphValue + Clone, Q: GraphQuery<V>>(
    q: &Q,
    Ghost(ids): Ghost<Set<Seq<char>>>,
    node: Pattern<V>,
    nbrs: Vec<Pattern<V>>,
    idx: usize,
    stack: &mut Vec<Frame<V>>,
    in_stack: &mut Vec<Symbol>,
    done: &Vec<Symbol>,
    nodes: &Vec<Pattern<V>>,
    Ghost(result): Ghost<Seq<Pattern<V>>>,
) -> (cycle: bool)
    requires
        ids == tree_ids(patterns_forest(nodes@)).to_set(),
        walk_core(ids, old(stack)@.push((node, nbrs, idx)), old(in_stack)@, done@),
        exact_clone::<V>() ==> walk_state(*q, ids, old(stack)@.push((node, nbrs, idx)), old(in_stack)@, done@, result),
        idx < nbrs@.len(),
    ensures
        cycle ==> (exact_clone::<V>() ==> has_forward_cycle(*q)),
        !cycle ==> walk_core(ids, final(stack)@, final(in_stack)@, done@),
        !cycle ==> (exact_clone::<V>() ==> walk_state(*q, ids, final(stack)@, final(in_stack)@, done@, result)),
        !cycle ==> (ids.difference(seen_ids(final(in_stack)@, done@)).len() < ids.difference(seen_ids(old(in_stack)@, done@)).len()
            || (seen_ids(final(in_stack)@, done@) == seen_ids(old(in_stack)@, done@) && frame_work(final(stack)@) < frame_work(
            old(stack)@.push((node, nbrs, idx)),
        ))),
        !cycle ==> seen_ids(old(in_stack)@, done@).subset_of(seen_ids(final(in_stack)@, done@)),
{
    let ghost st0 = stack@.push((node, nbrs, idx));
    let ghost seen = seen_ids(in_stack@, done@);
    let count = nbrs.len();
    let nid = nbrs[idx].value.identify().clone();
    proof {
        if exact_clone::<V>() {
        lemma_pattern_view(nbrs@[idx as int]);
    }
    }
    let neighbor = copy_of(&nbrs[idx]);
    let ghost nv = node@;
    stack.push((node, nbrs, idx + 1));
    proof {
        if exact_clone::<V>() {
        assert(stack@.drop_last() =~= st0.drop_last());
        lemma_frame_ids_push(st0.drop_last(), st0.last());
        assert(st0.drop_last().push(st0.last()) =~= st0);
        lemma_frame_ids_push(st0.drop_last(), stack@.last());
        assert(st0.drop_last().push(stack@.last()) =~= stack@);
        lemma_pattern_view(neighbor);
        assert(st0[st0.len() - 1].1@ == nbrs@);
        assert(patterns_forest(nbrs@)[idx as int] == neighbor@);
        lemma_forward_in_nodes(*q, nv, q.incident_spec(nv), idx as int);
        assert(nid@ == neighbor@.value.identity_text());
    }
    }
    if holds_symbol(in_stack, &nid) {
        proof {
            if exact_clone::<V>() {
            let e = choose|e: int| 0 <= e < symbol_texts(in_stack@).len() && symbol_texts(in_stack@)[e] == nid@;
            let path = frame_trees(st0).subrange(e, st0.len() as int);
            assert(frame_ids(st0)[e] == nid@);
            assert forall|k: int| 0 <= k < path.len() - 1 implies #[trigger] forward_of(*q, path[k]).contains(path[k + 1]) by {
                let d = e + k;
                assert(path[k] == st0[d].0@);
                assert(path[k + 1] == st0[d + 1].0@);
                assert(st0[d].2 <= st0[d].1@.len());
                assert(patterns_forest(st0[d].1@).len() == st0[d].1@.len());
                assert(forward_of(*q, st0[d].0@)[st0[d].2 - 1] == st0[d + 1].0@);
            }
            assert(path.last() == nv);
            assert(forward_of(*q, nv)[idx as int] == neighbor@);
            assert(forward_of(*q, path.last()).contains(neighbor@));
            assert(neighbor@.value.identity_text() == path[0].value.identity_text());
        }
        }
        return true;
    }
    let is_node = crate::graph::algorithms::traversal::holds_node(nodes, &nid);
    proof {
        if exact_clone::<V>() {
            assert(node_ids(*q).contains(nid@));
            assert(tree_ids(patterns_forest(nodes@)).to_set().contains(nid@));
            assert(is_node);
        }
    }
    if !holds_symbol(done, &nid) && is_node {
        let ghost in0 = in_stack@;
        let ghost nid_text = nid@;
        in_stack.push(nid);
        let next = forward_neighbors(q, &neighbor);
        let ghost st1 = stack@;
        stack.push((neighbor, next, 0));
        proof {
            lemma_symbol_set_push(in0, in_stack@.last());
            lemma_symbol_texts_push(in0, in_stack@.last());
            assert(in0.push(in_stack@.last()) =~= in_stack@);
            assert(!symbol_texts(in0).contains(nid_text)) by {
                if symbol_texts(in0).contains(nid_text) {
                    let j = choose|j: int| 0 <= j < symbol_texts(in0).len() && symbol_texts(in0)[j] == nid_text;
                    assert(symbol_set(in0).contains(nid_text));
                }
            }
            assert forall|a: int, b: int| 0 <= a < b < symbol_texts(in_stack@).len() implies symbol_texts(in_stack@)[a] != symbol_texts(in_stack@)[b] by {
                assert(symbol_texts(in0)[a] == symbol_texts(in_stack@)[a]);
                if b < in0.len() {
                    assert(symbol_texts(in0)[b] == symbol_texts(in_stack@)[b]);
                }
            }
            assert(ids.contains(nid_text)) by {
                let i = choose|i: int| 0 <= i < tree_ids(patterns_forest(nodes@)).len() && tree_ids(patterns_forest(nodes@))[i] == nid_text;
            }
            assert(!symbol_set(done@).contains(nid_text)) by {
                if symbol_set(done@).contains(nid_text) {
                    let j = choose|j: int| 0 <= j < symbol_texts(done@).len() && symbol_texts(done@)[j] == nid_text;
                }
            }
            assert(!seen.contains(nid_text));
            ids.lemma_set_insert_diff_decreases(seen, nid_text);
            assert(seen_ids(in_stack@, done@) =~= seen.insert(nid_text));
            assert forall|k: int| 0 <= k < stack@.len() implies (#[trigger] stack@[k]).2 <= stack@[k].1@.len() by {
                if k < st0.len() - 1 {
                    assert(stack@[k] == st0[k]);
                }
            }
        }
        proof {
            if exact_clone::<V>() {
            lemma_symbol_set_push(in0, nid);
            lemma_symbol_texts_push(in0, nid);
            lemma_frame_ids_push(st1, stack@.last());
            assert(st1.push(stack@.last()) =~= stack@);
            assert(!symbol_texts(in0).contains(nid@));
            assert forall|a: int, b: int| 0 <= a < b < symbol_texts(in_stack@).len() implies symbol_texts(in_stack@)[a] != symbol_texts(in_stack@)[b] by {
                assert(symbol_texts(in0)[a] == symbol_texts(in_stack@)[a]);
                if b < in0.len() {
                    assert(symbol_texts(in0)[b] == symbol_texts(in_stack@)[b]);
                }
            }
            assert(!seen.contains(nid@));
            ids.lemma_set_insert_diff_decreases(seen, nid@);
            assert(seen_ids(in_stack@, done@) =~= seen.insert(nid@));
            assert forall|d: int, k: int|
                0 <= d < stack@.len() && 0 <= k < (#[trigger] stack@[d]).2 - (if d < stack@.len() - 1 { 1int } else { 0int })
                implies symbol_set(done@).contains(#[trigger] forward_of(*q, stack@[d].0@)[k].value.identity_text()) by {
                if d < st0.len() - 1 {
                    assert(stack@[d] == st0[d]);
                } else if d == st0.len() - 1 {
                    assert(stack@[d].0 == st0[d].0);
                }
            }
            assert forall|d: int|
                0 <= d < stack@.len() - 1 implies (#[trigger] stack@[d]).2 >= 1 && stack@[d + 1].0@ == forward_of(*q, stack@[d].0@)[stack@[d].2 - 1] by {
                if d < st0.len() - 1 {
                    assert(stack@[d] == st0[d]);
                    if d + 1 < st0.len() - 1 {
                        assert(stack@[d + 1] == st0[d + 1]);
                    } else {
                        assert(stack@[d + 1].0 == st0[d + 1].0);
                    }
                }
            }
        }
        }
    } else {
        proof {
            assert(seen_ids(in_stack@, done@) =~= seen);
            assert(stack@.drop_last() == st0.drop_last());
            assert(frame_work(stack@) < frame_work(st0));
            assert forall|k: int| 0 <= k < stack@.len() implies (#[trigger] stack@[k]).2 <= stack@[k].1@.len() by {
                if k < st0.len() - 1 {
                    assert(stack@[k] == st0[k]);
                }
            }
        }
        proof {
            if exact_clone::<V>() {
            assert(seen_ids(in_stack@, done@) =~= seen);
            assert(stack@.drop_last() == st0.drop_last());
            assert(frame_work(stack@) < frame_work(st0));
            assert forall|d: int, k: int|
                0 <= d < stack@.len() && 0 <= k < (#[trigger] stack@[d]).2 - (if d < stack@.len() - 1 { 1int } else { 0int })
                implies symbol_set(done@).contains(#[trigger] forward_of(*q, stack@[d].0@)[k].value.identity_text()) by {
                if d < st0.len() - 1 {
                    assert(stack@[d] == st0[d]);
                } else if k < idx {
                    assert(stack@[d].0 == st0[d].0);
                } else {
                    assert(forward_of(*q, nv)[idx as int] == neighbor@);
                }
            }
            assert forall|d: int|
                0 <= d < stack@.len() - 1 implies (#[trigger] stack@[d]).2 >= 1 && stack@[d + 1].0@ == forward_of(*q, stack@[d].0@)[stack@[d].2 - 1] by {
                assert(stack@[d] == st0[d]);
                if d + 1 < st0.len() - 1 {
                    assert(stack@[d + 1] == st0[d + 1]);
                } else {
                    assert(stack@[d + 1].0 == st0[d + 1].0);
                }
            }
        }
        }
    }
    false
}

/// In an order where each member comes before its forward neighbours, a member with
/// the identity of a forward neighbour of `s[i]` sits after `s[i]`.
proof fn lemma_neighbor_after<V: GraphValue + Clone, Q: GraphQuery<V>>(q: Q, s: Seq<Tree<V>>, i: int, x: Tree<V>)
    requires
        ordered_forward(q, s),
        tree_ids(s).no_duplicates(),
        0 <= i < s.len(),
        forward_of(q, s[i]).contains(x),
    ensures
        forall|j: int| 0 <= j < s.len() && (#[trigger] s[j]).value.identity_text() == x.value.identity_text() ==> j > i,
{
    let m = choose|m: int| 0 <= m < forward_of(q, s[i]).len() && forward_of(q, s[i])[m] == x;
    assert(neighbor_id(q, s[i], m) == x.value.identity_text());
    let sub = s.subrange(i + 1, s.len() as int);
    assert(tree_ids(sub).contains(neighbor_id(q, s[i], m)));
    let j2 = choose|j2: int| 0 <= j2 < tree_ids(sub).len() && tree_ids(sub)[j2] == x.value.identity_text();
    assert(tree_ids(s)[i + 1 + j2] == x.value.identity_text());
    assert forall|j: int| 0 <= j < s.len() && (#[trigger] s[j]).value.identity_text() == x.value.identity_text() implies j > i by {
        assert(tree_ids(s)[j] == x.value.identity_text());
        if j != i + 1 + j2 {
            assert(tree_ids(s)[j] != tree_ids(s)[i + 1 + j2]);
        }
    }
}

/// Values that grow at every step end no lower than they start.
proof fn lemma_increasing_chain(f: spec_fn(int) -> int, n: int)
    requires
        n >= 1,
        forall|k: int| 0 <= k < n - 1 ==> #[trigger] f(k + 1) > f(k),
    ensures
        f(n - 1) >= f(0),
    decreases n,
{
    if n > 1 {
        lemma_increasing_chain(f, n - 1);
        assert(f(n - 2 + 1) > f(n - 2));
    }
}

/// An order that holds every node, each identity once, and puts each member before
/// its forward neighbours leaves no forward cycle through nodes.
proof fn lemma_order_excludes_cycle<V: GraphValue + Clone, Q: GraphQuery<V>>(q: Q, s: Seq<Tree<V>>)
    requires
        ordered_forward(q, s),
        tree_ids(s).no_duplicates(),
        forall|x: Tree<V>| #[trigger] q.nodes_spec().contains(x) ==> s.contains(x),
    ensures
        !has_forward_cycle(q),
{
    if has_forward_cycle(q) {
        let (path, t) = choose|path: Seq<Tree<V>>, t: Tree<V>|
            path.len() >= 1 && forward_path(q, path) && #[trigger] forward_of(q, path.last()).contains(t)
                && t.value.identity_text() == path[0].value.identity_text()
                && (forall|k: int| 0 <= k < path.len() ==> q.nodes_spec().contains(#[trigger] path[k]));
        let pos = |k: int| choose|j: int| 0 <= j < s.len() && s[j] == path[k];
        assert forall|k: int| 0 <= k < path.len() implies 0 <= #[trigger] pos(k) < s.len() && s[pos(k)] == path[k] by {
            assert(q.nodes_spec().contains(path[k]));
            assert(s.contains(path[k]));
        }
        assert forall|k: int| 0 <= k < path.len() - 1 implies #[trigger] pos(k + 1) > pos(k) by {
            assert(0 <= pos(k) < s.len() && s[pos(k)] == path[k]);
            assert(0 <= pos(k + 1) < s.len() && s[pos(k + 1)] == path[k + 1]);
            assert(forward_of(q, path[k]).contains(path[k + 1]));
            lemma_neighbor_after(q, s, pos(k), path[k + 1]);
        }
        lemma_increasing_chain(pos, path.len() as int);
        let last = path.len() - 1;
        assert(0 <= pos(last) < s.len() && s[pos(last)] == path[last]);
        assert(0 <= pos(0) < s.len() && s[pos(0)] == path[0]);
        assert(path.last() == path[last]);
        lemma_neighbor_after(q, s, pos(last), t);
        assert(s[pos(0)].value.identity_text() == t.value.identity_text());
    }
}

/// The nodes reachable forward, in an order where every node comes before its forward
/// neighbours (depth first, from each node in turn); `None` when a forward path leads
/// back into itself.
pub fn topological_sort<V: GraphValue + Clone, Q: GraphQuery<V>>(q: &Q) -> (r: Option<Vec<Pattern<V>>>)
    requires
        targets_in_nodes(*q),
    ensures
        exact_clone::<V>() ==> r is Some ==> forall|k: int| 0 <= k < q.nodes_spec().len() ==> pattern_ids(r->Some_0@).contains(
            #[trigger] q.nodes_spec()[k].value.identity_text(),
        ),
        exact_clone::<V>() ==> r is Some ==> ordered_forward(*q, patterns_forest(r->Some_0@)),
        exact_clone::<V>() ==> r is Some ==> pattern_ids(r->Some_0@).no_duplicates(),
        exact_clone::<V>() ==> r is Some ==> pattern_ids(r->Some_0@).to_set() == node_ids(*q),
        exact_clone::<V>() ==> r is Some ==> forall|k: int|
            0 <= k < r->Some_0@.len() ==> q.nodes_spec().contains(#[trigger] patterns_forest(r->Some_0@)[k]),
        exact_clone::<V>() ==> r is Some && tree_ids(q.nodes_spec()).no_duplicates() ==> is_permutation_of(
            patterns_forest(r->Some_0@),
            q.nodes_spec(),
        ),
        exact_clone::<V>() ==> r is None ==> has_forward_cycle(*q),
        exact_clone::<V>() ==> tree_ids(q.nodes_spec()).no_duplicates() ==> (r is None <==> has_forward_cycle(*q)),
{
    let nodes = q.query_nodes();
    let ghost ns = q.nodes_spec();
    let ghost ids = tree_ids(patterns_forest(nodes@)).to_set();
    proof {
        vstd::seq_lib::seq_to_set_is_finite(tree_ids(patterns_forest(nodes@)));
        if exact_clone::<V>() {
            assert(tree_ids(patterns_forest(nodes@)) =~= ns.map_values(|n: Tree<V>| n.value.identity_text()));
            assert(ids == node_ids(*q));
        }
    }
    let mut in_stack: Vec<Symbol> = Vec::new();
    let mut done: Vec<Symbol> = Vec::new();
    let mut result: Vec<Pattern<V>> = Vec::new();
    let mut i: usize = 0;
    proof {
        assert(symbol_texts(done@) =~= pattern_ids(result@));
        assert(patterns_forest(result@) =~= Seq::<Tree<V>>::empty());
        assert(symbol_set(done@) =~= Set::<Seq<char>>::empty());
    }
    while i < nodes.len()
        invariant
            i <= nodes.len(),
            targets_in_nodes(*q),
            ns == q.nodes_spec(),
            exact_clone::<V>() ==> patterns_forest(nodes@) == ns,
            ids == tree_ids(patterns_forest(nodes@)).to_set(),
            exact_clone::<V>() ==> ids == node_ids(*q),
            ids.finite(),
            in_stack@.len() == 0,
            symbol_set(done@).subset_of(ids),
            symbol_texts(done@).no_duplicates(),
            exact_clone::<V>() ==> symbol_texts(done@) == pattern_ids(result@),
            exact_clone::<V>() ==> forall|k: int| 0 <= k < result.len() ==> q.nodes_spec().contains((#[trigger] result@[k])@),
            exact_clone::<V>() ==> finished_after(*q, patterns_forest(result@)),
            exact_clone::<V>() ==> forall|k: int| 0 <= k < i ==> symbol_set(done@).contains(#[trigger] ns[k].value.identity_text()),
        decreases nodes.len() - i,
    {
        let start = &nodes[i];
        proof {
            lemma_pattern_view(*start);
            assert(tree_ids(patterns_forest(nodes@))[i as int] == start@.value.identity_text());
            assert(ids.contains(start@.value.identity_text()));
            if exact_clone::<V>() {
                assert(ns[i as int] == start@);
                assert(ns.map_values(|n: Tree<V>| n.value.identity_text())[i as int] == start@.value.identity_text());
            }
        }
        if !holds_symbol(&done, start.value.identify()) {
            let ghost done0 = symbol_set(done@);
            let start_id = start.value.identify().clone();
            let ghost sid = start_id@;
            in_stack.push(start_id);
            let neighbors = forward_neighbors(q, start);
            let mut stack: Vec<Frame<V>> = Vec::new();
            stack.push((copy_of(start), neighbors, 0));
            proof {
                lemma_symbol_texts_push(Seq::empty(), in_stack@[0]);
                assert(Seq::<Symbol>::empty().push(in_stack@[0]) =~= in_stack@);
                lemma_symbol_set_push(Seq::empty(), in_stack@[0]);
                assert(symbol_set(Seq::<Symbol>::empty()) =~= Set::<Seq<char>>::empty());
                assert(!symbol_set(done@).contains(sid)) by {
                    if symbol_set(done@).contains(sid) {
                        let j = choose|j: int| 0 <= j < symbol_texts(done@).len() && symbol_texts(done@)[j] == sid;
                    }
                }
                assert(symbol_texts(in_stack@).no_duplicates());
                assert(walk_core(ids, stack@, in_stack@, done@));
            }
            proof {
              if exact_clone::<V>() {
                lemma_frame_ids_push(Seq::empty(), stack@[0]);
                assert(Seq::<Frame<V>>::empty().push(stack@[0]) =~= stack@);
                lemma_symbol_texts_push(Seq::empty(), in_stack@[0]);
                assert(Seq::<Symbol>::empty().push(in_stack@[0]) =~= in_stack@);
                lemma_symbol_set_push(Seq::empty(), in_stack@[0]);
                assert(symbol_set(Seq::<Symbol>::empty()) =~= Set::<Seq<char>>::empty());
                assert(symbol_texts(in_stack@) == frame_ids(stack@));
                assert(symbol_set(in_stack@).contains(sid));
                assert(stack@[0].0@ == ns[i as int]);
                assert(ns.contains(ns[i as int]));
                assert(walk_state(*q, ids, stack@, in_stack@, done@, result@));
              }
            }
            while stack.len() > 0
                invariant
                    ids == tree_ids(patterns_forest(nodes@)).to_set(),
                    walk_core(ids, stack@, in_stack@, done@),
                    exact_clone::<V>() ==> walk_state(*q, ids, stack@, in_stack@, done@, result@),
                    done0.subset_of(symbol_set(done@)),
                    seen_ids(in_stack@, done@).contains(sid),
                decreases ids.difference(seen_ids(in_stack@, done@)).len(), frame_work(stack@),
            {
                let ghost st0 = stack@;
                let (node, nbrs, idx) = stack.pop().unwrap();
                proof {
                    assert(st0 == stack@.push((node, nbrs, idx)));
                }
                if idx < nbrs.len() {
                    let cycle = visit_neighbor(q, Ghost(ids), node, nbrs, idx, &mut stack, &mut in_stack, &done, &nodes, Ghost(result@));
                    if cycle {
                        return None;
                    }
                    proof {
                        lemma_frame_work_nonneg(stack@);
                    }
                } else {
                    finish_node(q, Ghost(ids), node, Ghost(st0.last()), &stack, &mut in_stack, &mut done, &mut result);
                    proof {
                        assert(frame_work(stack@) < frame_work(st0));
                        lemma_frame_work_nonneg(stack@);
                    }
                }
            }
            proof {
                assert(in_stack@.len() == 0);
                assert(symbol_set(in_stack@) =~= Set::<Seq<char>>::empty());
            }
        }
        i = i + 1;
    }
    let r = crate::pattern::combine::reversed(result);
    proof {
      if exact_clone::<V>() {
        assert(patterns_forest(r@) =~= patterns_forest(result@).reverse());
        lemma_reverse_ordered(*q, patterns_forest(result@));
        assert forall|k: int| 0 <= k < ns.len() implies pattern_ids(r@).contains(#[trigger] ns[k].value.identity_text()) by {
            let x = ns[k].value.identity_text();
            assert(symbol_set(done@).contains(x));
            let j = choose|j: int| 0 <= j < symbol_texts(done@).len() && symbol_texts(done@)[j] == x;
            assert(pattern_ids(result@)[j] == x);
            assert(r@[result@.len() - 1 - j] == result@[j]);
            assert(pattern_ids(r@)[result@.len() - 1 - j] == x);
        }
        let ps = pattern_ids(result@);
        assert(pattern_ids(r@) =~= ps.reverse());
        assert forall|a: int, b: int| 0 <= a < b < pattern_ids(r@).len() implies pattern_ids(r@)[a] != pattern_ids(r@)[b] by {
            assert(pattern_ids(r@)[a] == ps[ps.len() - 1 - a]);
            assert(pattern_ids(r@)[b] == ps[ps.len() - 1 - b]);
        }
        assert forall|x: Seq<char>| pattern_ids(r@).to_set().contains(x) <==> ids.contains(x) by {
            if pattern_ids(r@).to_set().contains(x) {
                let j = choose|j: int| 0 <= j < pattern_ids(r@).len() && pattern_ids(r@)[j] == x;
                assert(ps[ps.len() - 1 - j] == x);
                assert(symbol_set(done@).contains(x));
            }
            if ids.contains(x) {
                let nids = ns.map_values(|n: Tree<V>| n.value.identity_text());
                let k = choose|k: int| 0 <= k < nids.len() && #[trigger] nids[k] == x;
                assert(ns[k].value.identity_text() == x);
                assert(pattern_ids(r@).contains(x));
            }
        }
        assert(pattern_ids(r@).to_set() =~= ids);
        let rs = patterns_forest(r@);
        assert forall|k: int| 0 <= k < r@.len() implies q.nodes_spec().contains(#[trigger] rs[k]) by {
            assert(r@[k] == result@[result@.len() - 1 - k]);
        }
        if tree_ids(ns).no_duplicates() {
            assert(tree_ids(ns) =~= ns.map_values(|n: Tree<V>| n.value.identity_text()));
            tree_ids(ns).unique_seq_to_set();
            pattern_ids(r@).unique_seq_to_set();
            assert(tree_ids(rs) =~= pattern_ids(r@));
            assert forall|a: int, b: int| 0 <= a < b < rs.len() implies rs[a] != rs[b] by {
                assert(tree_ids(rs)[a] == rs[a].value.identity_text());
                assert(tree_ids(rs)[b] == rs[b].value.identity_text());
            }
            assert forall|x: Tree<V>| rs.contains(x) <==> ns.contains(x) by {
                if ns.contains(x) {
                    let i = choose|i: int| 0 <= i < ns.len() && ns[i] == x;
                    assert(tree_ids(ns)[i] == x.value.identity_text());
                    assert(ids.contains(x.value.identity_text()));
                    assert(pattern_ids(r@).to_set().contains(x.value.identity_text()));
                    let j = choose|j: int| 0 <= j < pattern_ids(r@).len() && pattern_ids(r@)[j] == x.value.identity_text();
                    assert(ns.contains(rs[j]));
                    let i2 = choose|i2: int| 0 <= i2 < ns.len() && ns[i2] == rs[j];
                    assert(tree_ids(ns)[i2] == rs[j].value.identity_text());
                    assert(i2 == i);
                    assert(rs[j] == x);
                }
            }
            assert(tree_ids(rs) =~= pattern_ids(r@));
            lemma_order_excludes_cycle(*q, rs);
        }
      }
    }
    Some(r)
}

/// `s` lists the members of `t`, each once: as many members, each one of the other's.
pub open spec fn is_permutation_of<A>(s: Seq<A>, t: Seq<A>) -> bool {
    &&& s.len() == t.len()
    &&& s.no_duplicates()
    &&& forall|x: A| s.contains(x) <==> t.contains(x)
}

/// Some order of trees names every node's identity and puts each before its forward
/// neighbours.
pub open spec fn has_forward_order<V: GraphValue + Clone, Q: GraphQuery<V>>(q: Q) -> bool {
    exists|s: Seq<Tree<V>>|
        (forall|k: int| 0 <= k < q.nodes_spec().len() ==> tree_ids(s).contains(#[trigger] q.nodes_spec()[k].value.identity_text()))
            && #[trigger] ordered_forward(q, s)
}

/// Whether some forward path leads back into itself (`topological_sort` finds no order).
pub fn has_cycle<V: GraphValue + Clone, Q: GraphQuery<V>>(q: &Q) -> (r: bool)
    requires
        targets_in_nodes(*q),
    ensures
        exact_clone::<V>() ==> (r ==> has_forward_cycle(*q)),
        exact_clone::<V>() ==> (!r ==> has_forward_order(*q)),
        exact_clone::<V>() && tree_ids(q.nodes_spec()).no_duplicates() ==> (r <==> has_forward_cycle(*q)),
{
    match topological_sort(q) {
        Some(order) => {
            proof {
                if exact_clone::<V>() {
                    let s = patterns_forest(order@);
                    assert(tree_ids(s) =~= pattern_ids(order@));
                    assert(ordered_forward(*q, s));
                }
            }
            false
        },
        None => true,
    }
}

} // verus!
