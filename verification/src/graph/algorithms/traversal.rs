use vstd::prelude::*;

use crate::graph::algorithms::{node_ids, tree_ids};
use crate::graph::graph_classifier::GraphValue;
use crate::graph::graph_query::{GraphQuery, TraversalDirection, TraversalWeight};
use crate::pattern::{lemma_pattern_view, patterns_forest, Pattern};
use crate::pattern_graph::copy_of;
use crate::reconcile::exact_clone;
use crate::subject::{holds_symbol, lemma_symbol_set_push, symbol_set, symbol_texts, Symbol};
use crate::tree::Tree;

verus! {

// ---------------------------------------------------------------------------
// Neighbours
// ---------------------------------------------------------------------------

/// What crossing `rel` from `n` under `w` reaches: its target, when `n` is its source
/// and it may be crossed forward; then its source, when `n` is its target and it may
/// be crossed backward.
pub open spec fn crossing<V: GraphValue + Clone, Q: GraphQuery<V>, W: TraversalWeight<V>>(
    q: Q,
    w: W,
    n: Tree<V>,
    rel: Tree<V>,
) -> Seq<Tree<V>> {
    let src = q.source_spec(rel);
    let tgt = q.target_spec(rel);
    let id = n.value.identity_text();
    (if src is Some && (src->Some_0).value.identity_text() == id && w.passes(rel, TraversalDirection::Forward)
        && tgt is Some {
        seq![tgt->Some_0]
    } else {
        Seq::empty()
    }) + (if tgt is Some && (tgt->Some_0).value.identity_text() == id && w.passes(rel, TraversalDirection::Backward)
        && src is Some {
        seq![src->Some_0]
    } else {
        Seq::empty()
    })
}

/// The neighbours of `n` reached across `rels`, in order.
pub open spec fn neighbors_among<V: GraphValue + Clone, Q: GraphQuery<V>, W: TraversalWeight<V>>(
    q: Q,
    w: W,
    n: Tree<V>,
    rels: Seq<Tree<V>>,
) -> Seq<Tree<V>>
    decreases rels.len(),
{
    if rels.len() == 0 {
        Seq::empty()
    } else {
        neighbors_among(q, w, n, rels.drop_last()) + crossing(q, w, n, rels.last())
    }
}

/// The neighbours of `n` under `w`: what crossing its incident relationships reaches.
pub open spec fn neighbors_of<V: GraphValue + Clone, Q: GraphQuery<V>, W: TraversalWeight<V>>(
    q: Q,
    w: W,
    n: Tree<V>,
) -> Seq<Tree<V>> {
    neighbors_among(q, w, n, q.incident_spec(n))
}

/// Every source and every target that `q` names is one of its nodes.
pub open spec fn ends_in_nodes<V: GraphValue + Clone, Q: GraphQuery<V>>(q: Q) -> bool {
    &&& forall|r: Tree<V>| #[trigger] q.source_spec(r) is Some ==> q.nodes_spec().contains(q.source_spec(r)->Some_0)
    &&& forall|r: Tree<V>| #[trigger] q.target_spec(r) is Some ==> q.nodes_spec().contains(q.target_spec(r)->Some_0)
}

/// Under `ends_in_nodes`, every neighbour is a node.
proof fn lemma_neighbor_in_nodes<V: GraphValue + Clone, Q: GraphQuery<V>, W: TraversalWeight<V>>(
    q: Q,
    w: W,
    n: Tree<V>,
    rels: Seq<Tree<V>>,
    k: int,
)
    requires
        ends_in_nodes(q),
        0 <= k < neighbors_among(q, w, n, rels).len(),
    ensures
        node_ids(q).contains(neighbors_among(q, w, n, rels)[k].value.identity_text()),
    decreases rels.len(),
{
    let prev = neighbors_among(q, w, n, rels.drop_last());
    if k < prev.len() {
        lemma_neighbor_in_nodes(q, w, n, rels.drop_last(), k);
    } else {
        let t = neighbors_among(q, w, n, rels)[k];
        let rel = rels.last();
        assert(t == q.target_spec(rel)->Some_0 || t == q.source_spec(rel)->Some_0);
        assert(q.nodes_spec().contains(t));
        let j = choose|j: int| 0 <= j < q.nodes_spec().len() && q.nodes_spec()[j] == t;
        assert(q.nodes_spec().map_values(|m: Tree<V>| m.value.identity_text())[j] == t.value.identity_text());
    }
}

/// The neighbours of `node` under `weight`, in the order of its incident relationships.
fn reachable_neighbors<V: GraphValue + Clone, Q: GraphQuery<V>, W: TraversalWeight<V>>(
    q: &Q,
    weight: &W,
    node: &Pattern<V>,
) -> (r: Vec<Pattern<V>>)
    ensures
        exact_clone::<V>() ==> patterns_forest(r@) == neighbors_of(*q, *weight, node@),
{
    proof {
        lemma_pattern_view(*node);
    }
    let node_id = node.value.identify();
    let rels = q.query_incident_rels(node);
    let ghost s = patterns_forest(rels@);
    let mut r: Vec<Pattern<V>> = Vec::new();
    let mut i: usize = 0;
    proof {
        assert(patterns_forest(r@) =~= neighbors_among(*q, *weight, node@, s.take(0)));
    }
    while i < rels.len()
        invariant
            i <= rels.len(),
            s == patterns_forest(rels@),
            exact_clone::<V>() ==> s == q.incident_spec(node@),
            node_id@ == node@.value.identity_text(),
            exact_clone::<V>() ==> patterns_forest(r@) == neighbors_among(*q, *weight, node@, s.take(i as int)),
        decreases rels.len() - i,
    {
        let rel = &rels[i];
        proof {
            crate::tree::lemma_take_step(s, i as int);
            assert(s[i as int] == rel@);
        }
        let ghost before = r@;
        let src = q.query_source(rel);
        let tgt = q.query_target(rel);
        let from_here = match &src {
            Some(a) => {
                proof {
                    lemma_pattern_view(*a);
                }
                *a.value.identify() == *node_id
            },
            None => false,
        };
        let to_here = match &tgt {
            Some(b) => {
                proof {
                    lemma_pattern_view(*b);
                }
                *b.value.identify() == *node_id
            },
            None => false,
        };
        let ghost src_t = crate::graph::graph_query::option_tree(src);
        let ghost tgt_t = crate::graph::graph_query::option_tree(tgt);
        let forward = from_here && tgt.is_some() && weight.passable(rel, TraversalDirection::Forward);
        let backward = to_here && src.is_some() && weight.passable(rel, TraversalDirection::Backward);
        if forward {
            match tgt {
                Some(t) => r.push(t),
                None => {},
            }
        }
        let ghost mid = r@;
        if backward {
            match src {
                Some(a) => r.push(a),
                None => {},
            }
        }
        proof {
            if exact_clone::<V>() {
                let fw: Seq<Tree<V>> = if forward { seq![tgt_t->Some_0] } else { Seq::empty() };
                let bw: Seq<Tree<V>> = if backward { seq![src_t->Some_0] } else { Seq::empty() };
                assert(patterns_forest(mid) =~= patterns_forest(before) + fw);
                assert(patterns_forest(r@) =~= patterns_forest(mid) + bw);
                assert(crossing(*q, *weight, node@, rel@) =~= fw + bw);
                assert(patterns_forest(r@) =~= neighbors_among(*q, *weight, node@, s.take(i + 1)));
            }
        }
        i = i + 1;
    }
    proof {
        assert(s.take(rels.len() as int) =~= s);
    }
    r
}

/// Whether `b` is, by identity, a neighbour of `a` under `weight`.
pub fn is_neighbor<V: GraphValue + Clone, Q: GraphQuery<V>, W: TraversalWeight<V>>(
    q: &Q,
    weight: &W,
    a: &Pattern<V>,
    b: &Pattern<V>,
) -> (r: bool)
    ensures
        exact_clone::<V>() ==> r == tree_ids(neighbors_of(*q, *weight, a@)).contains(b@.value.identity_text()),
{
    proof {
        lemma_pattern_view(*b);
    }
    let b_id = b.value.identify();
    let nbrs = reachable_neighbors(q, weight, a);
    let ghost ns = patterns_forest(nbrs@);
    let mut i: usize = 0;
    while i < nbrs.len()
        invariant
            i <= nbrs.len(),
            ns == patterns_forest(nbrs@),
            exact_clone::<V>() ==> ns == neighbors_of(*q, *weight, a@),
            b_id@ == b@.value.identity_text(),
            forall|k: int| 0 <= k < i ==> #[trigger] tree_ids(ns)[k] != b_id@,
        decreases nbrs.len() - i,
    {
        proof {
            lemma_pattern_view(nbrs@[i as int]);
            assert(tree_ids(ns)[i as int] == nbrs@[i as int].value.identity_text());
        }
        if *nbrs[i].value.identify() == *b_id {
            return true;
        }
        i = i + 1;
    }
    proof {
        if tree_ids(ns).contains(b_id@) {
            let j = choose|j: int| 0 <= j < tree_ids(ns).len() && tree_ids(ns)[j] == b_id@;
            assert(tree_ids(ns)[j] != b_id@);
        }
    }
    false
}


// ---------------------------------------------------------------------------
// Traversals
// ---------------------------------------------------------------------------

/// `r[k]` is a neighbour under `w` of a member of `r` before it.
pub open spec fn found_before<V: GraphValue + Clone, Q: GraphQuery<V>, W: TraversalWeight<V>>(
    q: Q,
    w: W,
    r: Seq<Tree<V>>,
    k: int,
) -> bool {
    exists|j: int| 0 <= j < k && #[trigger] neighbors_of(q, w, r[j]).contains(r[k])
}

/// Every member of `r` after the first was found from one before it.
pub open spec fn grown_from_first<V: GraphValue + Clone, Q: GraphQuery<V>, W: TraversalWeight<V>>(
    q: Q,
    w: W,
    r: Seq<Tree<V>>,
) -> bool {
    forall|k: int| 0 < k < r.len() ==> #[trigger] found_before(q, w, r, k)
}

/// The first `n` members of `r` have all their neighbours, by identity, in `r`.
pub open spec fn closed_prefix<V: GraphValue + Clone, Q: GraphQuery<V>, W: TraversalWeight<V>>(
    q: Q,
    w: W,
    r: Seq<Tree<V>>,
    n: int,
) -> bool {
    forall|k: int, m: int|
        0 <= k < n && 0 <= m < neighbors_of(q, w, r[k]).len() ==> tree_ids(r).contains(
            #[trigger] neighbors_of(q, w, r[k])[m].value.identity_text(),
        )
}

/// `r` is what a traversal from `start` under `w` visits: `start` first, each identity
/// once, every later member a neighbour of an earlier one, and every neighbour of a
/// member present by identity.
pub open spec fn visits_from<V: GraphValue + Clone, Q: GraphQuery<V>, W: TraversalWeight<V>>(
    q: Q,
    w: W,
    start: Tree<V>,
    r: Seq<Tree<V>>,
) -> bool {
    &&& r.len() > 0
    &&& r[0] == start
    &&& tree_ids(r).no_duplicates()
    &&& grown_from_first(q, w, r)
    &&& closed_prefix(q, w, r, r.len() as int)
}

/// Adding a neighbour of a member keeps a traversal's growth and closed prefix.
proof fn lemma_grow<V: GraphValue + Clone, Q: GraphQuery<V>, W: TraversalWeight<V>>(
    q: Q,
    w: W,
    r: Seq<Tree<V>>,
    x: Tree<V>,
    n: int,
    j: int,
)
    requires
        grown_from_first(q, w, r),
        closed_prefix(q, w, r, n),
        0 <= n <= r.len(),
        0 <= j < r.len(),
        neighbors_of(q, w, r[j]).contains(x),
    ensures
        grown_from_first(q, w, r.push(x)),
        closed_prefix(q, w, r.push(x), n),
        tree_ids(r.push(x)) == tree_ids(r).push(x.value.identity_text()),
{
    let r2 = r.push(x);
    assert(tree_ids(r2) =~= tree_ids(r).push(x.value.identity_text()));
    assert forall|k: int| 0 < k < r2.len() implies #[trigger] found_before(q, w, r2, k) by {
        if k < r.len() {
            assert(found_before(q, w, r, k));
            let i = choose|i: int| 0 <= i < k && #[trigger] neighbors_of(q, w, r[i]).contains(r[k]);
            assert(r2[i] == r[i] && r2[k] == r[k]);
        } else {
            assert(r2[j] == r[j] && r2[k] == x);
        }
    }
    assert forall|k: int, m: int|
        0 <= k < n && 0 <= m < neighbors_of(q, w, r2[k]).len() implies tree_ids(r2).contains(
        #[trigger] neighbors_of(q, w, r2[k])[m].value.identity_text(),
    ) by {
        assert(r2[k] == r[k]);
        let c = neighbors_of(q, w, r[k])[m].value.identity_text();
        assert(tree_ids(r).contains(c));
        let i = choose|i: int| 0 <= i < tree_ids(r).len() && tree_ids(r)[i] == c;
        assert(tree_ids(r2)[i] == c);
    }
}

/// A sequence without duplicates inside a finite set is no longer than the set.
proof fn lemma_distinct_within(s: Seq<Seq<char>>, b: Set<Seq<char>>)
    requires
        s.no_duplicates(),
        s.to_set().subset_of(b),
        b.finite(),
    ensures
        s.len() <= b.len(),
{
    s.unique_seq_to_set();
    vstd::set_lib::lemma_len_subset(s.to_set(), b);
}

/// `r` followed by those of `ns`, in order, whose identity is not yet present.
pub open spec fn append_unseen<V: GraphValue>(r: Seq<Tree<V>>, ns: Seq<Tree<V>>) -> Seq<Tree<V>>
    decreases ns.len(),
{
    if ns.len() == 0 {
        r
    } else {
        let a = append_unseen(r, ns.drop_last());
        if tree_ids(a).contains(ns.last().value.identity_text()) {
            a
        } else {
            a.push(ns.last())
        }
    }
}

/// One step of breadth-first search on the visited list and the position of the next
/// member to expand: that member's unseen neighbours join the list.
pub open spec fn bfs_step<V: GraphValue + Clone, Q: GraphQuery<V>, W: TraversalWeight<V>>(
    q: Q,
    w: W,
    st: (Seq<Tree<V>>, int),
) -> (Seq<Tree<V>>, int) {
    (append_unseen(st.0, neighbors_of(q, w, st.0[st.1])), st.1 + 1)
}

/// `trace` is a run of breadth-first search from `start`: it begins with `start` alone,
/// takes one step while a member is left to expand, and ends when none is.
pub open spec fn bfs_run<V: GraphValue + Clone, Q: GraphQuery<V>, W: TraversalWeight<V>>(
    q: Q,
    w: W,
    start: Tree<V>,
    trace: Seq<(Seq<Tree<V>>, int)>,
) -> bool {
    &&& trace.len() >= 1
    &&& trace[0] == (seq![start], 0int)
    &&& forall|i: int|
        0 <= i < trace.len() - 1 ==> 0 <= (#[trigger] trace[i]).1 < trace[i].0.len() && trace[i + 1] == bfs_step(
            q,
            w,
            trace[i],
        )
    &&& trace.last().1 == trace.last().0.len()
}

/// `r` is the breadth-first order from `start`: the list that the (single) run of
/// breadth-first search ends with. Members are visited in queue order, each member's
/// neighbours in the order of its incident relationships.
pub open spec fn bfs_order<V: GraphValue + Clone, Q: GraphQuery<V>, W: TraversalWeight<V>>(
    q: Q,
    w: W,
    start: Tree<V>,
    r: Seq<Tree<V>>,
) -> bool {
    exists|trace: Seq<(Seq<Tree<V>>, int)>| #[trigger] bfs_run(q, w, start, trace) && trace.last().0 == r
}

/// Whether a member of `nodes` has identity `id`.
pub(crate) fn holds_node<V: GraphValue>(nodes: &Vec<Pattern<V>>, id: &Symbol) -> (r: bool)
    ensures
        r == tree_ids(patterns_forest(nodes@)).contains(id@),
{
    let mut i: usize = 0;
    while i < nodes.len()
        invariant
            i <= nodes.len(),
            forall|k: int| 0 <= k < i ==> tree_ids(patterns_forest(nodes@))[k] != id@,
        decreases nodes.len() - i,
    {
        proof {
            lemma_pattern_view(nodes@[i as int]);
        }
        if *nodes[i].value.identify() == *id {
            proof {
                assert(tree_ids(patterns_forest(nodes@))[i as int] == id@);
            }
            return true;
        }
        i = i + 1;
    }
    proof {
        if tree_ids(patterns_forest(nodes@)).contains(id@) {
            let j = choose|j: int| 0 <= j < tree_ids(patterns_forest(nodes@)).len() && tree_ids(patterns_forest(nodes@))[j] == id@;
            assert(tree_ids(patterns_forest(nodes@))[j] != id@);
        }
    }
    false
}

/// Breadth-first traversal from `start` under `weight`: the nodes in the order they
/// are visited, `start` first.
pub fn bfs<V: GraphValue + Clone, Q: GraphQuery<V>, W: TraversalWeight<V>>(
    q: &Q,
    weight: &W,
    start: &Pattern<V>,
) -> (r: Vec<Pattern<V>>)
    requires
        ends_in_nodes(*q),
    ensures
        exact_clone::<V>() ==> visits_from(*q, *weight, start@, patterns_forest(r@)),
        exact_clone::<V>() ==> bfs_order(*q, *weight, start@, patterns_forest(r@)),
{
    let nodes = q.query_nodes();
    let ghost bound = tree_ids(patterns_forest(nodes@)).to_set().insert(start@.value.identity_text());
    let ghost exact = exact_clone::<V>();
    proof {
        vstd::seq_lib::seq_to_set_is_finite(tree_ids(patterns_forest(nodes@)));
        lemma_pattern_view(*start);
        if exact {
            assert(tree_ids(patterns_forest(nodes@)) =~= q.nodes_spec().map_values(|n: Tree<V>| n.value.identity_text()));
            assert(bound == node_ids(*q).insert(start@.value.identity_text()));
        }
    }
    let mut seen: Vec<Symbol> = Vec::new();
    let mut result: Vec<Pattern<V>> = Vec::new();
    seen.push(start.value.identify().clone());
    result.push(copy_of(start));
    let mut head: usize = 0;
    let ghost mut trace: Seq<(Seq<Tree<V>>, int)> = seq![(seq![start@], 0int)];
    proof {
        lemma_symbol_set_push(Seq::empty(), seen@[0]);
        assert(Seq::<Symbol>::empty().push(seen@[0]) =~= seen@);
        assert(symbol_set(Seq::<Symbol>::empty()) =~= Set::<Seq<char>>::empty());
        assert(symbol_texts(seen@).no_duplicates());
        lemma_distinct_within(symbol_texts(seen@), bound);
        if exact {
            assert(patterns_forest(result@) =~= seq![start@]);
            assert(symbol_texts(seen@) =~= tree_ids(patterns_forest(result@)));
        }
    }
    while head < result.len()
        invariant
            exact == exact_clone::<V>(),
            ends_in_nodes(*q),
            bound == tree_ids(patterns_forest(nodes@)).to_set().insert(start@.value.identity_text()),
            exact ==> bound == node_ids(*q).insert(start@.value.identity_text()),
            exact ==> patterns_forest(nodes@) == q.nodes_spec(),
            bound.finite(),
            head <= result.len(),
            result.len() > 0,
            seen.len() == result.len(),
            symbol_texts(seen@).no_duplicates(),
            symbol_set(seen@).subset_of(bound),
            result.len() <= bound.len(),
            exact ==> result@[0]@ == start@,
            exact ==> symbol_texts(seen@) == tree_ids(patterns_forest(result@)),
            exact ==> grown_from_first(*q, *weight, patterns_forest(result@)),
            exact ==> closed_prefix(*q, *weight, patterns_forest(result@), head as int),
            trace.len() >= 1,
            trace[0] == (seq![start@], 0int),
            exact ==> forall|i: int|
                0 <= i < trace.len() - 1 ==> 0 <= (#[trigger] trace[i]).1 < trace[i].0.len() && trace[i + 1] == bfs_step(
                    *q,
                    *weight,
                    trace[i],
                ),
            exact ==> trace.last() == (patterns_forest(result@), head as int),
        decreases 2 * bound.len() - result.len() - head,
    {
        let ghost r0 = patterns_forest(result@);
        let nbrs = reachable_neighbors(q, weight, &result[head]);
        let ghost cur = result@[head as int]@;
        let ghost ns = patterns_forest(nbrs@);
        let ghost len0 = result.len();
        proof {
            assert(ns.take(0) =~= Seq::<Tree<V>>::empty());
            assert(append_unseen(r0, ns.take(0)) == r0);
        }
        let mut j: usize = 0;
        while j < nbrs.len()
            invariant
                len0 <= result.len(),
                exact == exact_clone::<V>(),
                ends_in_nodes(*q),
                bound == tree_ids(patterns_forest(nodes@)).to_set().insert(start@.value.identity_text()),
                exact ==> bound == node_ids(*q).insert(start@.value.identity_text()),
                exact ==> patterns_forest(nodes@) == q.nodes_spec(),
                bound.finite(),
                head < result.len(),
                j <= nbrs.len(),
                seen.len() == result.len(),
                symbol_texts(seen@).no_duplicates(),
                symbol_set(seen@).subset_of(bound),
                result.len() <= bound.len(),
                ns == patterns_forest(nbrs@),
                exact ==> result@[0]@ == start@,
                exact ==> patterns_forest(result@)[head as int] == cur,
                exact ==> ns == neighbors_of(*q, *weight, cur),
                exact ==> symbol_texts(seen@) == tree_ids(patterns_forest(result@)),
                exact ==> grown_from_first(*q, *weight, patterns_forest(result@)),
                exact ==> closed_prefix(*q, *weight, patterns_forest(result@), head as int),
                exact ==> forall|m: int| 0 <= m < j ==> tree_ids(patterns_forest(result@)).contains(#[trigger] ns[m].value.identity_text()),
                r0[head as int] == cur,
                exact ==> patterns_forest(result@) == append_unseen(r0, ns.take(j as int)),
            decreases nbrs.len() - j,
        {
            let nb = &nbrs[j];
            proof {
                lemma_pattern_view(*nb);
                assert(ns[j as int] == nb@);
                if exact {
                    lemma_neighbor_in_nodes(*q, *weight, cur, q.incident_spec(cur), j as int);
                    assert(bound.contains(nb@.value.identity_text()));
                }
            }
            let nid = nb.value.identify();
            let is_node = holds_node(&nodes, nid);
            proof {
                if exact {
                    let nids = q.nodes_spec().map_values(|n: Tree<V>| n.value.identity_text());
                    assert(node_ids(*q).contains(nid@));
                    let i = choose|i: int| 0 <= i < nids.len() && nids[i] == nid@;
                    assert(tree_ids(patterns_forest(nodes@))[i] == nid@);
                    assert(is_node);
                }
            }
            if !holds_symbol(&seen, nid) && is_node {
                let ghost before = patterns_forest(result@);
                let ghost seen0 = seen@;
                seen.push(nid.clone());
                result.push(copy_of(nb));
                proof {
                    assert(symbol_texts(seen@) =~= symbol_texts(seen0).push(nid@));
                    lemma_symbol_set_push(seen0, seen@.last());
                    assert(seen@.last()@ == nid@);
                    assert(bound.contains(nid@)) by {
                        let i = choose|i: int| 0 <= i < tree_ids(patterns_forest(nodes@)).len() && tree_ids(patterns_forest(nodes@))[i] == nid@;
                        assert(tree_ids(patterns_forest(nodes@)).to_set().contains(nid@));
                    }
                    assert(symbol_set(seen@).subset_of(bound));
                    assert(symbol_texts(seen@).no_duplicates()) by {
                        assert(!symbol_texts(seen0).contains(nid@));
                    }
                    lemma_distinct_within(symbol_texts(seen@), bound);
                    if exact {
                        assert(patterns_forest(result@) =~= before.push(nb@));
                        assert(ns.contains(nb@));
                        lemma_grow(*q, *weight, before, nb@, head as int, head as int);
                        assert(tree_ids(patterns_forest(result@))[before.len() as int] == nb@.value.identity_text());
                        assert(tree_ids(patterns_forest(result@)).contains(nb@.value.identity_text()));
                        assert forall|m: int| 0 <= m < j implies tree_ids(patterns_forest(result@)).contains(
                            #[trigger] ns[m].value.identity_text(),
                        ) by {
                            let c = ns[m].value.identity_text();
                            assert(tree_ids(before).contains(c));
                            let i = choose|i: int| 0 <= i < tree_ids(before).len() && tree_ids(before)[i] == c;
                            assert(tree_ids(patterns_forest(result@))[i] == c);
                        }
                    }
                }
            }
            proof {
                if exact {
                    let a = append_unseen(r0, ns.take(j as int));
                    assert(ns.take(j + 1).drop_last() =~= ns.take(j as int));
                    assert(ns.take(j + 1).last() == nb@);
                    assert(append_unseen(r0, ns.take(j + 1)) == (if tree_ids(a).contains(nb@.value.identity_text()) {
                        a
                    } else {
                        a.push(nb@)
                    }));
                }
            }
            j = j + 1;
        }
        proof {
            if exact {
                assert(ns.take(nbrs.len() as int) =~= ns);
                let prev = trace.last();
                assert(prev == (r0, head as int));
                assert(bfs_step(*q, *weight, prev) == (patterns_forest(result@), head + 1));
            }
            let t0 = trace;
            trace = trace.push((patterns_forest(result@), head + 1));
            if exact {
                let prev = t0.last();
                assert forall|i: int|
                    0 <= i < trace.len() - 1 implies 0 <= (#[trigger] trace[i]).1 < trace[i].0.len() && trace[i + 1] == bfs_step(
                        *q,
                        *weight,
                        trace[i],
                    ) by {
                    if i < t0.len() - 1 {
                        assert(trace[i] == t0[i] && trace[i + 1] == t0[i + 1]);
                    } else {
                        assert(trace[i] == prev);
                    }
                }
                let r = patterns_forest(result@);
                assert forall|k: int, m: int|
                    0 <= k < head + 1 && 0 <= m < neighbors_of(*q, *weight, r[k]).len() implies tree_ids(r).contains(
                    #[trigger] neighbors_of(*q, *weight, r[k])[m].value.identity_text(),
                ) by {
                    if k == head {
                        assert(ns[m] == neighbors_of(*q, *weight, r[k])[m]);
                    }
                }
            }
        }
        head = head + 1;
    }
    proof {
        if exact {
            assert(patterns_forest(result@)[0] == start@);
            assert(bfs_run(*q, *weight, start@, trace));
        }
    }
    result
}


/// The identities of a sequence of patterns.
spec fn ids_of<V: GraphValue>(s: Seq<Pattern<V>>) -> Seq<Seq<char>> {
    tree_ids(patterns_forest(s))
}

/// Every neighbour of a member of `r` has its identity in `r` or on the stack `stk`.
spec fn closed_with_stack<V: GraphValue + Clone, Q: GraphQuery<V>, W: TraversalWeight<V>>(
    q: Q,
    w: W,
    r: Seq<Tree<V>>,
    stk: Seq<Tree<V>>,
) -> bool {
    forall|k: int, m: int|
        0 <= k < r.len() && 0 <= m < neighbors_of(q, w, r[k]).len() ==> (tree_ids(r).contains(
            #[trigger] neighbors_of(q, w, r[k])[m].value.identity_text(),
        ) || tree_ids(stk).contains(neighbors_of(q, w, r[k])[m].value.identity_text()))
}

/// `x` is a neighbour of a member of `r`.
spec fn found_in<V: GraphValue + Clone, Q: GraphQuery<V>, W: TraversalWeight<V>>(
    q: Q,
    w: W,
    r: Seq<Tree<V>>,
    x: Tree<V>,
) -> bool {
    exists|j: int| 0 <= j < r.len() && #[trigger] neighbors_of(q, w, r[j]).contains(x)
}

/// Identities in a sequence stay there when it grows.
proof fn lemma_ids_grow<V: GraphValue>(s: Seq<Tree<V>>, x: Tree<V>, c: Seq<char>)
    requires
        tree_ids(s).contains(c),
    ensures
        tree_ids(s.push(x)).contains(c),
        tree_ids(s.push(x)) == tree_ids(s).push(x.value.identity_text()),
{
    assert(tree_ids(s.push(x)) =~= tree_ids(s).push(x.value.identity_text()));
    let i = choose|i: int| 0 <= i < tree_ids(s).len() && tree_ids(s)[i] == c;
    assert(tree_ids(s.push(x))[i] == c);
}

/// An identity on a stack is on it without its top, or is the top's.
proof fn lemma_ids_pop<V: GraphValue>(s: Seq<Tree<V>>, c: Seq<char>)
    requires
        s.len() > 0,
        tree_ids(s).contains(c),
    ensures
        tree_ids(s.drop_last()).contains(c) || c == s.last().value.identity_text(),
{
    let i = choose|i: int| 0 <= i < tree_ids(s).len() && tree_ids(s)[i] == c;
    if i < s.len() - 1 {
        assert(tree_ids(s.drop_last())[i] == c);
    }
}

/// A neighbour of a member of `r` is a node.
proof fn lemma_found_in_nodes<V: GraphValue + Clone, Q: GraphQuery<V>, W: TraversalWeight<V>>(
    q: Q,
    w: W,
    r: Seq<Tree<V>>,
    x: Tree<V>,
)
    requires
        ends_in_nodes(q),
        found_in(q, w, r, x),
    ensures
        node_ids(q).contains(x.value.identity_text()),
{
    let j = choose|j: int| 0 <= j < r.len() && #[trigger] neighbors_of(q, w, r[j]).contains(x);
    let ns = neighbors_of(q, w, r[j]);
    let m = choose|m: int| 0 <= m < ns.len() && ns[m] == x;
    lemma_neighbor_in_nodes(q, w, r[j], q.incident_spec(r[j]), m);
}

/// The members of `ns`, in order, whose identity is not in `r`.
pub open spec fn unseen_of<V: GraphValue>(r: Seq<Tree<V>>, ns: Seq<Tree<V>>) -> Seq<Tree<V>> {
    ns.filter(|n: Tree<V>| !tree_ids(r).contains(n.value.identity_text()))
}

/// One step of depth-first search on the visited list and the stack: the top of the
/// stack comes off; if its identity is new it is visited, and its neighbours whose
/// identity is not yet visited go onto the stack in order.
pub open spec fn dfs_step<V: GraphValue + Clone, Q: GraphQuery<V>, W: TraversalWeight<V>>(
    q: Q,
    w: W,
    st: (Seq<Tree<V>>, Seq<Tree<V>>),
) -> (Seq<Tree<V>>, Seq<Tree<V>>) {
    let c = st.1.last();
    let rest = st.1.drop_last();
    if tree_ids(st.0).contains(c.value.identity_text()) {
        (st.0, rest)
    } else {
        (st.0.push(c), rest + unseen_of(st.0.push(c), neighbors_of(q, w, c)))
    }
}

/// `trace` is a run of depth-first search from `start`: it begins with `start` visited
/// and its neighbours on the stack, takes one step while the stack is not empty, and
/// ends when it is.
pub open spec fn dfs_run<V: GraphValue + Clone, Q: GraphQuery<V>, W: TraversalWeight<V>>(
    q: Q,
    w: W,
    start: Tree<V>,
    trace: Seq<(Seq<Tree<V>>, Seq<Tree<V>>)>,
) -> bool {
    &&& trace.len() >= 1
    &&& trace[0] == (seq![start], unseen_of(seq![start], neighbors_of(q, w, start)))
    &&& forall|i: int|
        0 <= i < trace.len() - 1 ==> (#[trigger] trace[i]).1.len() > 0 && trace[i + 1] == dfs_step(q, w, trace[i])
    &&& trace.last().1.len() == 0
}

/// `r` is the depth-first order from `start`: the list that the (single) run of
/// depth-first search ends with.
pub open spec fn dfs_order<V: GraphValue + Clone, Q: GraphQuery<V>, W: TraversalWeight<V>>(
    q: Q,
    w: W,
    start: Tree<V>,
    r: Seq<Tree<V>>,
) -> bool {
    exists|trace: Seq<(Seq<Tree<V>>, Seq<Tree<V>>)>| #[trigger] dfs_run(q, w, start, trace) && trace.last().0 == r
}

/// Pushes onto `stack` the neighbours of the newest member of `result` whose identity
/// is not yet visited.
fn push_unvisited<V: GraphValue + Clone, Q: GraphQuery<V>, W: TraversalWeight<V>>(
    q: &Q,
    weight: &W,
    nbrs: Vec<Pattern<V>>,
    seen: &Vec<Symbol>,
    result: &Vec<Pattern<V>>,
    stack: &mut Vec<Pattern<V>>,
)
    requires
        result.len() > 0,
        exact_clone::<V>() ==> patterns_forest(nbrs@) == neighbors_of(*q, *weight, result@.last()@),
        exact_clone::<V>() ==> symbol_texts(seen@) == ids_of(result@),
        exact_clone::<V>() ==> forall|i: int| 0 <= i < old(stack).len() ==> found_in(*q, *weight, patterns_forest(result@), #[trigger] old(stack)@[i]@),
    ensures
        exact_clone::<V>() ==> patterns_forest(final(stack)@) == patterns_forest(old(stack)@) + unseen_of(patterns_forest(result@), patterns_forest(nbrs@)),
        exact_clone::<V>() ==> forall|i: int| 0 <= i < final(stack).len() ==> found_in(*q, *weight, patterns_forest(result@), #[trigger] final(stack)@[i]@),
        exact_clone::<V>() ==> forall|c: Seq<char>| ids_of(old(stack)@).contains(c) ==> ids_of(final(stack)@).contains(c),
        exact_clone::<V>() ==> forall|m: int| 0 <= m < nbrs.len() ==> (ids_of(result@).contains(#[trigger] patterns_forest(nbrs@)[m].value.identity_text())
            || ids_of(final(stack)@).contains(patterns_forest(nbrs@)[m].value.identity_text())),
{
    let ghost ns = patterns_forest(nbrs@);
    let ghost r = patterns_forest(result@);
    let ghost last = result.len() - 1;
    let mut j: usize = 0;
    proof {
        if exact_clone::<V>() {
        assert(ns.take(0) =~= Seq::<Tree<V>>::empty());
        reveal(Seq::filter);
        assert(unseen_of(r, ns.take(0)) =~= Seq::<Tree<V>>::empty());
        assert(patterns_forest(stack@) =~= patterns_forest(old(stack)@) + unseen_of(r, ns.take(0)));
    }
    }
    while j < nbrs.len()
        invariant
            j <= nbrs.len(),
            ns == patterns_forest(nbrs@),
            r == patterns_forest(result@),
            result.len() > 0,
            last == result.len() - 1,
            exact_clone::<V>() ==> ns == neighbors_of(*q, *weight, r[last]),
            exact_clone::<V>() ==> symbol_texts(seen@) == ids_of(result@),
            exact_clone::<V>() ==> forall|i: int| 0 <= i < stack.len() ==> found_in(*q, *weight, r, #[trigger] stack@[i]@),
            exact_clone::<V>() ==> forall|c: Seq<char>| ids_of(old(stack)@).contains(c) ==> ids_of(stack@).contains(c),
            exact_clone::<V>() ==> forall|m: int| 0 <= m < j ==> (ids_of(result@).contains(#[trigger] ns[m].value.identity_text())
                || ids_of(stack@).contains(ns[m].value.identity_text())),
            exact_clone::<V>() ==> patterns_forest(stack@) == patterns_forest(old(stack)@) + unseen_of(r, ns.take(j as int)),
        decreases nbrs.len() - j,
    {
        let nb = &nbrs[j];
        proof {
            if exact_clone::<V>() {
            lemma_pattern_view(*nb);
            assert(ns[j as int] == nb@);
            crate::tree::lemma_take_step(ns, j as int);
            ns.take(j as int).lemma_filter_push(ns[j as int], |n: Tree<V>| !tree_ids(r).contains(n.value.identity_text()));
        }
        }
        let ghost st_before = patterns_forest(stack@);
        if !holds_symbol(seen, nb.value.identify()) {
            let ghost before = stack@;
            stack.push(copy_of(nb));
            proof {
                if exact_clone::<V>() {
                assert(patterns_forest(stack@) =~= patterns_forest(before).push(nb@));
                assert(ns.contains(nb@));
                assert(found_in(*q, *weight, r, nb@)) by {
                    assert(neighbors_of(*q, *weight, r[last]).contains(nb@));
                }
                assert forall|i: int| 0 <= i < stack.len() implies found_in(*q, *weight, r, #[trigger] stack@[i]@) by {
                    if i < before.len() {
                        assert(stack@[i] == before[i]);
                    }
                }
                assert(ids_of(stack@).last() == nb@.value.identity_text());
                assert forall|c: Seq<char>| ids_of(before).contains(c) implies ids_of(stack@).contains(c) by {
                    lemma_ids_grow(patterns_forest(before), nb@, c);
                }
                assert(ids_of(stack@).contains(nb@.value.identity_text())) by {
                    assert(ids_of(stack@)[stack.len() - 1] == nb@.value.identity_text());
                }
            }
            }
        }
        proof {
            if exact_clone::<V>() {
            assert(ids_of(result@) == tree_ids(r));
            assert(patterns_forest(stack@) =~= patterns_forest(old(stack)@) + unseen_of(r, ns.take(j + 1)));
        }
        }
        j = j + 1;
    }
    proof {
        if exact_clone::<V>() {
        assert(ns.take(nbrs.len() as int) =~= ns);
    }
    }
}

/// Depth-first traversal from `start` under `weight`: the nodes in the order they are
/// visited, `start` first. A node is visited when it comes off the stack; the
/// unvisited neighbours of each visited node go onto the stack in order.
pub fn dfs<V: GraphValue + Clone, Q: GraphQuery<V>, W: TraversalWeight<V>>(
    q: &Q,
    weight: &W,
    start: &Pattern<V>,
) -> (r: Vec<Pattern<V>>)
    requires
        ends_in_nodes(*q),
    ensures
        exact_clone::<V>() ==> visits_from(*q, *weight, start@, patterns_forest(r@)),
        exact_clone::<V>() ==> dfs_order(*q, *weight, start@, patterns_forest(r@)),
{
    let nodes = q.query_nodes();
    let ghost bound = tree_ids(patterns_forest(nodes@)).to_set().insert(start@.value.identity_text());
    proof {
        vstd::seq_lib::seq_to_set_is_finite(tree_ids(patterns_forest(nodes@)));
        lemma_pattern_view(*start);
        if exact_clone::<V>() {
            assert(tree_ids(patterns_forest(nodes@)) =~= q.nodes_spec().map_values(|n: Tree<V>| n.value.identity_text()));
            assert(bound == node_ids(*q).insert(start@.value.identity_text()));
        }
    }
    let mut seen: Vec<Symbol> = Vec::new();
    let mut result: Vec<Pattern<V>> = Vec::new();
    let mut stack: Vec<Pattern<V>> = Vec::new();
    seen.push(start.value.identify().clone());
    result.push(copy_of(start));
    proof {
        lemma_symbol_set_push(Seq::empty(), seen@[0]);
        assert(Seq::<Symbol>::empty().push(seen@[0]) =~= seen@);
        assert(symbol_set(Seq::<Symbol>::empty()) =~= Set::<Seq<char>>::empty());
        assert(symbol_texts(seen@).no_duplicates());
        lemma_distinct_within(symbol_texts(seen@), bound);
        if exact_clone::<V>() {
        assert(symbol_texts(seen@) =~= ids_of(result@));
        lemma_symbol_set_push(Seq::empty(), seen@[0]);
        assert(Seq::<Symbol>::empty().push(seen@[0]) =~= seen@);
        assert(symbol_set(Seq::<Symbol>::empty()) =~= Set::<Seq<char>>::empty());
        assert(symbol_texts(seen@).no_duplicates());
        lemma_distinct_within(symbol_texts(seen@), bound);
    }
    }
    let nbrs = reachable_neighbors(q, weight, &result[0]);
    push_unvisited(q, weight, nbrs, &seen, &result, &mut stack);
    let ghost mut trace: Seq<(Seq<Tree<V>>, Seq<Tree<V>>)> = seq![(patterns_forest(result@), patterns_forest(stack@))];
    proof {
        if exact_clone::<V>() {
        assert(patterns_forest(result@) =~= seq![start@]);
        assert(patterns_forest(Seq::<Pattern<V>>::empty()) =~= Seq::<Tree<V>>::empty());
        assert(patterns_forest(stack@) =~= unseen_of(seq![start@], neighbors_of(*q, *weight, start@)));
    }
    }
    proof {
        if exact_clone::<V>() {
        let r = patterns_forest(result@);
        assert forall|k: int, m: int|
            0 <= k < r.len() && 0 <= m < neighbors_of(*q, *weight, r[k]).len() implies (tree_ids(r).contains(
            #[trigger] neighbors_of(*q, *weight, r[k])[m].value.identity_text(),
        ) || tree_ids(patterns_forest(stack@)).contains(neighbors_of(*q, *weight, r[k])[m].value.identity_text())) by {
            assert(k == 0);
            assert(patterns_forest(nbrs@)[m] == neighbors_of(*q, *weight, r[k])[m]);
        }
    }
    }
    while stack.len() > 0
        invariant
            ends_in_nodes(*q),
            bound == tree_ids(patterns_forest(nodes@)).to_set().insert(start@.value.identity_text()),
            exact_clone::<V>() ==> bound == node_ids(*q).insert(start@.value.identity_text()),
            exact_clone::<V>() ==> patterns_forest(nodes@) == q.nodes_spec(),
            seen.len() == result.len(),
            bound.finite(),
            result.len() > 0,
            exact_clone::<V>() ==> result@[0]@ == start@,
            exact_clone::<V>() ==> symbol_texts(seen@) == ids_of(result@),
            symbol_texts(seen@).no_duplicates(),
            symbol_set(seen@).subset_of(bound),
            result.len() <= bound.len(),
            exact_clone::<V>() ==> grown_from_first(*q, *weight, patterns_forest(result@)),
            exact_clone::<V>() ==> closed_with_stack(*q, *weight, patterns_forest(result@), patterns_forest(stack@)),
            exact_clone::<V>() ==> forall|i: int| 0 <= i < stack.len() ==> found_in(*q, *weight, patterns_forest(result@), #[trigger] stack@[i]@),
            trace.len() >= 1,
            exact_clone::<V>() ==> trace[0] == (seq![start@], unseen_of(seq![start@], neighbors_of(*q, *weight, start@))),
            exact_clone::<V>() ==> forall|i: int|
                0 <= i < trace.len() - 1 ==> (#[trigger] trace[i]).1.len() > 0 && trace[i + 1] == dfs_step(*q, *weight, trace[i]),
            exact_clone::<V>() ==> trace.last() == (patterns_forest(result@), patterns_forest(stack@)),
        decreases bound.len() - result.len(), stack.len(),
    {
        let ghost st0 = patterns_forest(stack@);
        let ghost stp0 = stack@;
        let ghost r0 = patterns_forest(result@);
        let current = stack.pop().unwrap();
        proof {
            if exact_clone::<V>() {
            lemma_pattern_view(current);
            assert(st0.last() == current@);
            assert(patterns_forest(stack@) =~= st0.drop_last());
            assert(found_in(*q, *weight, r0, current@)) by {
                assert(stack@.len() == st0.len() - 1);
            }
        }
        }
        let is_node = holds_node(&nodes, current.value.identify());
        proof {
            if exact_clone::<V>() {
                lemma_found_in_nodes(*q, *weight, r0, current@);
                let nids = q.nodes_spec().map_values(|n: Tree<V>| n.value.identity_text());
                let i = choose|i: int| 0 <= i < nids.len() && nids[i] == current@.value.identity_text();
                assert(tree_ids(patterns_forest(nodes@))[i] == current@.value.identity_text());
                assert(is_node);
            }
        }
        if !holds_symbol(&seen, current.value.identify()) && is_node {
            let ghost seen0 = seen@;
            let ghost cid = current@.value.identity_text();
            seen.push(current.value.identify().clone());
            proof {
                assert(symbol_texts(seen@) =~= symbol_texts(seen0).push(cid));
                lemma_symbol_set_push(seen0, seen@.last());
                assert(bound.contains(cid)) by {
                    let i = choose|i: int| 0 <= i < tree_ids(patterns_forest(nodes@)).len() && tree_ids(patterns_forest(nodes@))[i] == cid;
                    assert(tree_ids(patterns_forest(nodes@)).to_set().contains(cid));
                }
                assert(symbol_set(seen@).subset_of(bound));
                assert(symbol_texts(seen@).no_duplicates()) by {
                    assert(!symbol_texts(seen0).contains(cid));
                }
                lemma_distinct_within(symbol_texts(seen@), bound);
            }
            let nbrs = reachable_neighbors(q, weight, &current);
            result.push(current);
            proof {
                if exact_clone::<V>() {
                let r = patterns_forest(result@);
                assert(r =~= r0.push(current@));
                let j = choose|j: int| 0 <= j < r0.len() && #[trigger] neighbors_of(*q, *weight, r0[j]).contains(current@);
                lemma_grow(*q, *weight, r0, current@, 0, j);
                assert(symbol_texts(seen@) =~= symbol_texts(seen0).push(current@.value.identity_text()));
                lemma_symbol_set_push(seen0, seen@.last());
                lemma_found_in_nodes(*q, *weight, r0, current@);
                assert(symbol_set(seen@).subset_of(bound));
                assert(symbol_texts(seen@).no_duplicates());
                lemma_distinct_within(symbol_texts(seen@), bound);
                assert forall|i: int| 0 <= i < stack.len() implies found_in(*q, *weight, r, #[trigger] stack@[i]@) by {
                    assert(stack@[i] == stp0[i]);
                    assert(found_in(*q, *weight, r0, stp0[i]@));
                    let jj = choose|jj: int| 0 <= jj < r0.len() && #[trigger] neighbors_of(*q, *weight, r0[jj]).contains(stack@[i]@);
                    assert(r[jj] == r0[jj]);
                }
                assert(r.last() == current@);
            }
            }
            let ghost stk1 = patterns_forest(stack@);
            let ghost stp1 = stack@;
            push_unvisited(q, weight, nbrs, &seen, &result, &mut stack);
            proof {
                if exact_clone::<V>() {
                let r = patterns_forest(result@);
                let stk = patterns_forest(stack@);
                assert forall|k: int, m: int|
                    0 <= k < r.len() && 0 <= m < neighbors_of(*q, *weight, r[k]).len() implies (tree_ids(r).contains(
                    #[trigger] neighbors_of(*q, *weight, r[k])[m].value.identity_text(),
                ) || tree_ids(stk).contains(neighbors_of(*q, *weight, r[k])[m].value.identity_text())) by {
                    let c = neighbors_of(*q, *weight, r[k])[m].value.identity_text();
                    if k < r0.len() {
                        assert(r[k] == r0[k]);
                        if tree_ids(r0).contains(c) {
                            lemma_ids_grow(r0, current@, c);
                        } else {
                            assert(tree_ids(st0).contains(c));
                            lemma_ids_pop(st0, c);
                            if c == current@.value.identity_text() {
                                assert(tree_ids(r)[r0.len() as int] == c);
                            } else {
                                assert(tree_ids(stk1).contains(c));
                                assert(ids_of(stp1).contains(c));
                                assert(ids_of(stack@).contains(c));
                            }
                        }
                    } else {
                        assert(patterns_forest(nbrs@)[m] == neighbors_of(*q, *weight, r[k])[m]);
                        assert(ids_of(result@).contains(patterns_forest(nbrs@)[m].value.identity_text())
                            || ids_of(stack@).contains(patterns_forest(nbrs@)[m].value.identity_text()));
                    }
                }
            }
            }
        } else {
            proof {
                if exact_clone::<V>() {
                let r = r0;
                let stk = patterns_forest(stack@);
                assert(tree_ids(r).contains(current@.value.identity_text()));
                assert forall|k: int, m: int|
                    0 <= k < r.len() && 0 <= m < neighbors_of(*q, *weight, r[k]).len() implies (tree_ids(r).contains(
                    #[trigger] neighbors_of(*q, *weight, r[k])[m].value.identity_text(),
                ) || tree_ids(stk).contains(neighbors_of(*q, *weight, r[k])[m].value.identity_text())) by {
                    let c = neighbors_of(*q, *weight, r[k])[m].value.identity_text();
                    if !tree_ids(r).contains(c) {
                        assert(tree_ids(st0).contains(c));
                        lemma_ids_pop(st0, c);
                        assert(c != current@.value.identity_text());
                        assert(tree_ids(st0.drop_last()).contains(c));
                        assert(stk == st0.drop_last());
                    }
                }
                assert forall|i: int| 0 <= i < stack.len() implies found_in(*q, *weight, r, #[trigger] stack@[i]@) by {
                    assert(stack@[i] == stp0[i]);
                    assert(found_in(*q, *weight, r0, stp0[i]@));
                }
            }
            }
        }
        proof {
            if exact_clone::<V>() {
            let prev = trace.last();
            assert(prev == (r0, st0));
            assert(st0.len() > 0);
            assert(dfs_step(*q, *weight, prev) == (patterns_forest(result@), patterns_forest(stack@)));
            let t0 = trace;
            trace = trace.push((patterns_forest(result@), patterns_forest(stack@)));
            assert forall|i: int|
                0 <= i < trace.len() - 1 implies (#[trigger] trace[i]).1.len() > 0 && trace[i + 1] == dfs_step(*q, *weight, trace[i]) by {
                if i < t0.len() - 1 {
                    assert(trace[i] == t0[i] && trace[i + 1] == t0[i + 1]);
                } else {
                    assert(trace[i] == prev);
                }
            }
        }
        }
    }
    proof {
        if exact_clone::<V>() {
        assert(dfs_run(*q, *weight, start@, trace));
        let r = patterns_forest(result@);
        assert(patterns_forest(stack@) =~= Seq::<Tree<V>>::empty());
        assert forall|k: int, m: int|
            0 <= k < r.len() && 0 <= m < neighbors_of(*q, *weight, r[k]).len() implies tree_ids(r).contains(
            #[trigger] neighbors_of(*q, *weight, r[k])[m].value.identity_text(),
        ) by {
            let c = neighbors_of(*q, *weight, r[k])[m].value.identity_text();
            if !tree_ids(r).contains(c) {
                assert(tree_ids(patterns_forest(stack@)).contains(c));
            }
        }
        assert(r[0] == start@);
    }
    }
    result
}


// ---------------------------------------------------------------------------
// Reachability
// ---------------------------------------------------------------------------

/// Each member of `path` after the first is a neighbour under `w` of the one before.
pub open spec fn is_walk<V: GraphValue + Clone, Q: GraphQuery<V>, W: TraversalWeight<V>>(
    q: Q,
    w: W,
    path: Seq<Tree<V>>,
) -> bool {
    forall|i: int| 0 <= i < path.len() - 1 ==> #[trigger] neighbors_of(q, w, path[i]).contains(path[i + 1])
}

/// Some walk under `w` leads from `a` to `b`.
pub open spec fn reaches<V: GraphValue + Clone, Q: GraphQuery<V>, W: TraversalWeight<V>>(
    q: Q,
    w: W,
    a: Tree<V>,
    b: Tree<V>,
) -> bool {
    exists|path: Seq<Tree<V>>| #![trigger is_walk(q, w, path)] path.len() > 0 && path[0] == a && path.last() == b && is_walk(q, w, path)
}

/// The identities of the nodes that walks under `w` reach from `a`.
pub open spec fn reachable_ids<V: GraphValue + Clone, Q: GraphQuery<V>, W: TraversalWeight<V>>(
    q: Q,
    w: W,
    a: Tree<V>,
) -> Set<Seq<char>> {
    Set::new(|c: Seq<char>| exists|x: Tree<V>| #[trigger] reaches(q, w, a, x) && x.value.identity_text() == c)
}

/// `q` answers by identity: nodes of one identity have the same incident relationships.
pub open spec fn answers_by_identity<V: GraphValue + Clone, Q: GraphQuery<V>>(q: Q) -> bool {
    forall|a: Tree<V>, b: Tree<V>|
        a.value.identity_text() == b.value.identity_text() ==> #[trigger] q.incident_spec(a) == #[trigger] q.incident_spec(b)
}

/// Nodes of one identity have the same neighbours across the same relationships.
proof fn lemma_same_neighbors<V: GraphValue + Clone, Q: GraphQuery<V>, W: TraversalWeight<V>>(
    q: Q,
    w: W,
    a: Tree<V>,
    b: Tree<V>,
    rels: Seq<Tree<V>>,
)
    requires
        a.value.identity_text() == b.value.identity_text(),
    ensures
        neighbors_among(q, w, a, rels) == neighbors_among(q, w, b, rels),
    decreases rels.len(),
{
    if rels.len() > 0 {
        lemma_same_neighbors(q, w, a, b, rels.drop_last());
        assert(crossing(q, w, a, rels.last()) == crossing(q, w, b, rels.last()));
    }
}

/// Each member of a sequence grown from its first is reached by a walk from the first.
proof fn lemma_member_reached<V: GraphValue + Clone, Q: GraphQuery<V>, W: TraversalWeight<V>>(
    q: Q,
    w: W,
    r: Seq<Tree<V>>,
    k: int,
)
    requires
        grown_from_first(q, w, r),
        0 <= k < r.len(),
    ensures
        reaches(q, w, r[0], r[k]),
    decreases k,
{
    if k == 0 {
        let p = seq![r[0]];
        assert(is_walk(q, w, p));
        assert(p.last() == r[0]);
    } else {
        assert(found_before(q, w, r, k));
        let j = choose|j: int| 0 <= j < k && #[trigger] neighbors_of(q, w, r[j]).contains(r[k]);
        lemma_member_reached(q, w, r, j);
        let p = choose|p: Seq<Tree<V>>| #![trigger is_walk(q, w, p)] p.len() > 0 && p[0] == r[0] && p.last() == r[j] && is_walk(q, w, p);
        let p2 = p.push(r[k]);
        assert forall|i: int| 0 <= i < p2.len() - 1 implies #[trigger] neighbors_of(q, w, p2[i]).contains(p2[i + 1]) by {
            if i < p.len() - 1 {
                assert(p2[i] == p[i] && p2[i + 1] == p[i + 1]);
                assert(neighbors_of(q, w, p[i]).contains(p[i + 1]));
            } else {
                assert(p2[i] == r[j]);
            }
        }
        assert(is_walk(q, w, p2));
        assert(p2.last() == r[k] && p2[0] == r[0]);
    }
}

/// Along a walk that starts at a held identity, every identity is held by a closed
/// traversal, where the query answers by identity.
proof fn lemma_walk_covered<V: GraphValue + Clone, Q: GraphQuery<V>, W: TraversalWeight<V>>(
    q: Q,
    w: W,
    r: Seq<Tree<V>>,
    path: Seq<Tree<V>>,
    i: int,
)
    requires
        answers_by_identity(q),
        closed_prefix(q, w, r, r.len() as int),
        is_walk(q, w, path),
        tree_ids(r).contains(path[0].value.identity_text()),
        0 <= i < path.len(),
    ensures
        tree_ids(r).contains(path[i].value.identity_text()),
    decreases i,
{
    if i > 0 {
        lemma_walk_covered(q, w, r, path, i - 1);
        let c = path[i - 1].value.identity_text();
        let k = choose|k: int| 0 <= k < tree_ids(r).len() && tree_ids(r)[k] == c;
        assert(r[k].value.identity_text() == c);
        assert(q.incident_spec(path[i - 1]) == q.incident_spec(r[k]));
        lemma_same_neighbors(q, w, path[i - 1], r[k], q.incident_spec(r[k]));
        assert(neighbors_of(q, w, path[i - 1]).contains(path[(i - 1) + 1]));
        let ns = neighbors_of(q, w, r[k]);
        let m = choose|m: int| 0 <= m < ns.len() && ns[m] == path[i];
        assert(tree_ids(r).contains(neighbors_of(q, w, r[k])[m].value.identity_text()));
    }
}

/// What a traversal visits is reached from its start; where the query answers by
/// identity, the traversal holds, once each, exactly the identities reachable from
/// its start.
pub proof fn lemma_visits_are_reachable<V: GraphValue + Clone, Q: GraphQuery<V>, W: TraversalWeight<V>>(
    q: Q,
    w: W,
    start: Tree<V>,
    r: Seq<Tree<V>>,
)
    requires
        visits_from(q, w, start, r),
    ensures
        forall|k: int| 0 <= k < r.len() ==> reaches(q, w, start, #[trigger] r[k]),
        answers_by_identity(q) ==> tree_ids(r).to_set() == reachable_ids(q, w, start),
        answers_by_identity(q) ==> r.len() == reachable_ids(q, w, start).len(),
{
    assert forall|k: int| 0 <= k < r.len() implies reaches(q, w, start, #[trigger] r[k]) by {
        lemma_member_reached(q, w, r, k);
    }
    if answers_by_identity(q) {
        assert forall|c: Seq<char>| tree_ids(r).to_set().contains(c) == reachable_ids(q, w, start).contains(c) by {
            if tree_ids(r).contains(c) {
                let k = choose|k: int| 0 <= k < tree_ids(r).len() && tree_ids(r)[k] == c;
                assert(reaches(q, w, start, r[k]));
            }
            if reachable_ids(q, w, start).contains(c) {
                let x = choose|x: Tree<V>| #[trigger] reaches(q, w, start, x) && x.value.identity_text() == c;
                let p = choose|p: Seq<Tree<V>>| #![trigger is_walk(q, w, p)] p.len() > 0 && p[0] == start && p.last() == x && is_walk(q, w, p);
                assert(tree_ids(r)[0] == start.value.identity_text());
                lemma_walk_covered(q, w, r, p, p.len() - 1);
            }
        }
        assert(tree_ids(r).to_set() =~= reachable_ids(q, w, start));
        tree_ids(r).unique_seq_to_set();
    }
}

/// Whether a walk under `weight` leads from `from` to a node with `to`'s identity.
pub fn has_path<V: GraphValue + Clone, Q: GraphQuery<V>, W: TraversalWeight<V>>(
    q: &Q,
    weight: &W,
    from: &Pattern<V>,
    to: &Pattern<V>,
) -> (r: bool)
    requires
        ends_in_nodes(*q),
    ensures
        exact_clone::<V>() ==> (r ==> reachable_ids(*q, *weight, from@).contains(to@.value.identity_text())),
        exact_clone::<V>() && answers_by_identity(*q) ==> (r == reachable_ids(*q, *weight, from@).contains(
            to@.value.identity_text(),
        )),
{
    proof {
        lemma_pattern_view(*from);
        lemma_pattern_view(*to);
    }
    if *from.value.identify() == *to.value.identify() {
        proof {
            let p = seq![from@];
            assert(is_walk(*q, *weight, p));
            assert(p.last() == from@);
            assert(reaches(*q, *weight, from@, from@));
        }
        return true;
    }
    let visited = bfs(q, weight, from);
    let ghost t = patterns_forest(visited@);
    let to_id = to.value.identify();
    let mut i: usize = 0;
    while i < visited.len()
        invariant
            i <= visited.len(),
            t == patterns_forest(visited@),
            exact_clone::<V>() ==> visits_from(*q, *weight, from@, t),
            to_id@ == to@.value.identity_text(),
            forall|k: int| 0 <= k < i ==> #[trigger] tree_ids(t)[k] != to_id@,
        decreases visited.len() - i,
    {
        proof {
            lemma_pattern_view(visited@[i as int]);
            assert(tree_ids(t)[i as int] == visited@[i as int].value.identity_text());
        }
        if *visited[i].value.identify() == *to_id {
            proof {
                if exact_clone::<V>() {
                    lemma_visits_are_reachable(*q, *weight, from@, t);
                    assert(reaches(*q, *weight, from@, t[i as int]));
                }
            }
            return true;
        }
        i = i + 1;
    }
    proof {
        if exact_clone::<V>() {
            lemma_visits_are_reachable(*q, *weight, from@, t);
        }
        if exact_clone::<V>() && answers_by_identity(*q) && reachable_ids(*q, *weight, from@).contains(to_id@) {
            assert(tree_ids(t).to_set().contains(to_id@));
            let j = choose|j: int| 0 <= j < tree_ids(t).len() && tree_ids(t)[j] == to_id@;
            assert(tree_ids(t)[j] != to_id@);
        }
    }
    false
}

/// Whether every node is reached from the first: true on a graph without nodes;
/// otherwise whether a traversal from the first node visits as many nodes as there are.
pub fn is_connected<V: GraphValue + Clone, Q: GraphQuery<V>, W: TraversalWeight<V>>(q: &Q, weight: &W) -> (r: bool)
    requires
        ends_in_nodes(*q),
    ensures
        exact_clone::<V>() && q.nodes_spec().len() == 0 ==> r,
        exact_clone::<V>() && q.nodes_spec().len() > 0 ==> exists|t: Seq<Tree<V>>| #[trigger] visits_from(*q, *weight, q.nodes_spec()[0], t)
            && r == (t.len() == q.nodes_spec().len()),
        exact_clone::<V>() && q.nodes_spec().len() > 0 && answers_by_identity(*q) ==> (r == (reachable_ids(
            *q,
            *weight,
            q.nodes_spec()[0],
        ).len() == q.nodes_spec().len())),
{
    let nodes = q.query_nodes();
    if nodes.len() == 0 {
        return true;
    }
    let visited = bfs(q, weight, &nodes[0]);
    proof {
        if exact_clone::<V>() {
            let t = patterns_forest(visited@);
            assert(nodes@[0]@ == q.nodes_spec()[0]);
            lemma_visits_are_reachable(*q, *weight, q.nodes_spec()[0], t);
            assert(visits_from(*q, *weight, q.nodes_spec()[0], t));
        }
    }
    visited.len() == nodes.len()
}


// ---------------------------------------------------------------------------
// Components
// ---------------------------------------------------------------------------

/// One of the first `n` components holds identity `c`.
pub open spec fn held_in<V: GraphValue>(comps: Seq<Seq<Tree<V>>>, n: int, c: Seq<char>) -> bool {
    exists|i: int| 0 <= i < n && #[trigger] tree_ids(comps[i]).contains(c)
}

/// The trees of each component.
pub open spec fn component_trees<V>(comps: Seq<Vec<Pattern<V>>>) -> Seq<Seq<Tree<V>>> {
    comps.map_values(|c: Vec<Pattern<V>>| patterns_forest(c@))
}

/// `comps` are the components of the first `n` nodes of `ns`, started at the positions
/// `idx`: those in increasing order whose identity no earlier component holds, each a
/// traversal from its node; every other node among the first `n` is held by a
/// component started before it.
pub open spec fn components_upto<V: GraphValue + Clone, Q: GraphQuery<V>, W: TraversalWeight<V>>(
    q: Q,
    w: W,
    ns: Seq<Tree<V>>,
    comps: Seq<Seq<Tree<V>>>,
    idx: Seq<int>,
    n: int,
) -> bool {
    &&& comps.len() == idx.len()
    &&& forall|i: int| 0 <= i < idx.len() ==> 0 <= #[trigger] idx[i] < n
    &&& forall|i: int, j: int| 0 <= i < j < idx.len() ==> #[trigger] idx[i] < #[trigger] idx[j]
    &&& forall|i: int| 0 <= i < comps.len() ==> visits_from(q, w, ns[idx[i]], #[trigger] comps[i])
    &&& forall|i: int| 0 <= i < comps.len() ==> !held_in(comps, i, #[trigger] ns[idx[i]].value.identity_text())
    &&& forall|k: int|
        0 <= k < n && !idx.contains(k) ==> exists|i: int|
            0 <= i < idx.len() && idx[i] < k && #[trigger] tree_ids(comps[i]).contains(ns[k].value.identity_text())
}

/// The graph's nodes partitioned into components, in the order of the nodes: each
/// node whose identity no earlier component holds starts a new component, which is
/// the breadth-first traversal from it.
pub fn connected_components<V: GraphValue + Clone, Q: GraphQuery<V>, W: TraversalWeight<V>>(
    q: &Q,
    weight: &W,
) -> (r: Vec<Vec<Pattern<V>>>)
    requires
        ends_in_nodes(*q),
    ensures
        exact_clone::<V>() ==> exists|idx: Seq<int>| components_upto(*q, *weight, q.nodes_spec(), component_trees(r@), idx, q.nodes_spec().len() as int),
        exact_clone::<V>() ==> forall|k: int| 0 <= k < q.nodes_spec().len() ==> held_in(component_trees(r@), r.len() as int, #[trigger] q.nodes_spec()[k].value.identity_text()),
{
    let nodes = q.query_nodes();
    let ghost ns = q.nodes_spec();
    let mut seen: Vec<Symbol> = Vec::new();
    let mut comps: Vec<Vec<Pattern<V>>> = Vec::new();
    let ghost mut idx: Seq<int> = Seq::empty();
    let mut k: usize = 0;
    proof {
        assert(component_trees(comps@) =~= Seq::<Seq<Tree<V>>>::empty());
    }
    while k < nodes.len()
        invariant
            k <= nodes.len(),
            ends_in_nodes(*q),
            ns == q.nodes_spec(),
            exact_clone::<V>() ==> patterns_forest(nodes@) == ns,
            exact_clone::<V>() ==> components_upto(*q, *weight, ns, component_trees(comps@), idx, k as int),
            exact_clone::<V>() ==> forall|c: Seq<char>| #[trigger] symbol_texts(seen@).contains(c) == held_in(component_trees(comps@), comps.len() as int, c),
            exact_clone::<V>() ==> forall|j: int| 0 <= j < k ==> held_in(component_trees(comps@), comps.len() as int, #[trigger] ns[j].value.identity_text()),
        decreases nodes.len() - k,
    {
        let node = &nodes[k];
        proof {
            lemma_pattern_view(*node);
            if exact_clone::<V>() {
                assert(ns[k as int] == node@);
            }
        }
        if !holds_symbol(&seen, node.value.identify()) {
            let component = bfs(q, weight, node);
            let ghost ct = patterns_forest(component@);
            let ghost seen0 = seen@;
            let mut i: usize = 0;
            while i < component.len()
                invariant
                    i <= component.len(),
                    ct == patterns_forest(component@),
                    symbol_texts(seen@) == symbol_texts(seen0) + tree_ids(ct).take(i as int),
                    exact_clone::<V>() ==> forall|c: Seq<char>| #[trigger] symbol_texts(seen0).contains(c) == held_in(component_trees(comps@), comps.len() as int, c),
                decreases component.len() - i,
            {
                proof {
                    lemma_pattern_view(component@[i as int]);
                    assert(tree_ids(ct)[i as int] == component@[i as int].value.identity_text());
                }
                let ghost before = seen@;
                let x = component[i].value.identify().clone();
                seen.push(x);
                proof {
                    assert(symbol_texts(seen@) =~= symbol_texts(before).push(x@));
                    assert(tree_ids(ct).take(i + 1) =~= tree_ids(ct).take(i as int).push(tree_ids(ct)[i as int]));
                    assert(symbol_texts(seen@) =~= symbol_texts(seen0) + tree_ids(ct).take(i + 1));
                }
                i = i + 1;
            }
            let ghost old_comps = component_trees(comps@);
            let ghost idx0 = idx;
            comps.push(component);
            proof {
                idx = idx.push(k as int);
            }
            proof {
              if exact_clone::<V>() {
                let cs = component_trees(comps@);
                assert(cs =~= old_comps.push(ct));
                assert(tree_ids(ct).take(ct.len() as int) =~= tree_ids(ct));
                assert(ct[0] == node@);
                assert forall|c: Seq<char>| #[trigger] symbol_texts(seen@).contains(c) == held_in(cs, cs.len() as int, c) by {
                    if symbol_texts(seen@).contains(c) {
                        let j = choose|j: int| 0 <= j < symbol_texts(seen@).len() && symbol_texts(seen@)[j] == c;
                        if j < symbol_texts(seen0).len() {
                            assert(symbol_texts(seen0)[j] == c);
                            assert(symbol_texts(seen0).contains(c));
                            assert(held_in(old_comps, old_comps.len() as int, c));
                            let i0 = choose|i0: int| 0 <= i0 < old_comps.len() && #[trigger] tree_ids(old_comps[i0]).contains(c);
                            assert(cs[i0] == old_comps[i0]);
                            assert(tree_ids(cs[i0]).contains(c));
                        } else {
                            assert(tree_ids(ct)[j - symbol_texts(seen0).len()] == c);
                            assert(tree_ids(ct).contains(c));
                            assert(cs[old_comps.len() as int] == ct);
                            assert(tree_ids(cs[old_comps.len() as int]).contains(c));
                        }
                    }
                    if held_in(cs, cs.len() as int, c) {
                        let i0 = choose|i0: int| 0 <= i0 < cs.len() && #[trigger] tree_ids(cs[i0]).contains(c);
                        if i0 < old_comps.len() {
                            assert(cs[i0] == old_comps[i0]);
                            assert(held_in(old_comps, old_comps.len() as int, c));
                            assert(symbol_texts(seen0).contains(c));
                            let j = choose|j: int| 0 <= j < symbol_texts(seen0).len() && symbol_texts(seen0)[j] == c;
                            assert(symbol_texts(seen@)[j] == c);
                        } else {
                            assert(cs[i0] == ct);
                            let j = choose|j: int| 0 <= j < tree_ids(ct).len() && tree_ids(ct)[j] == c;
                            assert(symbol_texts(seen@)[symbol_texts(seen0).len() + j] == c);
                        }
                    }
                }
                assert forall|j: int| 0 <= j < k + 1 implies held_in(cs, cs.len() as int, #[trigger] ns[j].value.identity_text()) by {
                    let c = ns[j].value.identity_text();
                    if j < k {
                        assert(held_in(old_comps, old_comps.len() as int, c));
                        let i0 = choose|i0: int| 0 <= i0 < old_comps.len() && #[trigger] tree_ids(old_comps[i0]).contains(c);
                        assert(cs[i0] == old_comps[i0]);
                        assert(tree_ids(cs[i0]).contains(c));
                    } else {
                        assert(tree_ids(ct)[0] == c);
                        assert(tree_ids(ct).contains(c));
                        assert(cs[old_comps.len() as int] == ct);
                        assert(tree_ids(cs[old_comps.len() as int]).contains(c));
                    }
                }
                assert(components_upto(*q, *weight, ns, cs, idx, k + 1)) by {
                    assert forall|i: int| 0 <= i < cs.len() implies visits_from(*q, *weight, ns[idx[i]], #[trigger] cs[i]) by {
                        if i < old_comps.len() {
                            assert(cs[i] == old_comps[i] && idx[i] == idx0[i]);
                        }
                    }
                    assert forall|i: int| 0 <= i < cs.len() implies !held_in(cs, i, #[trigger] ns[idx[i]].value.identity_text()) by {
                        let c = ns[idx[i]].value.identity_text();
                        if held_in(cs, i, c) {
                            let i0 = choose|i0: int| 0 <= i0 < i && #[trigger] tree_ids(cs[i0]).contains(c);
                            assert(cs[i0] == old_comps[i0]);
                            if i < old_comps.len() {
                                assert(idx[i] == idx0[i]);
                                assert(!held_in(old_comps, i, ns[idx0[i]].value.identity_text()));
                            } else {
                                assert(held_in(old_comps, old_comps.len() as int, c));
                                assert(symbol_texts(seen0).contains(c));
                            }
                        }
                    }
                    assert forall|i: int, j: int| 0 <= i < j < idx.len() implies #[trigger] idx[i] < #[trigger] idx[j] by {
                        if j < idx0.len() {
                            assert(idx[i] == idx0[i] && idx[j] == idx0[j]);
                        } else {
                            assert(idx[i] == idx0[i]);
                        }
                    }
                    assert forall|kk: int|
                        0 <= kk < k + 1 && !idx.contains(kk) implies exists|i: int|
                        0 <= i < idx.len() && idx[i] < kk && #[trigger] tree_ids(cs[i]).contains(ns[kk].value.identity_text()) by {
                        assert(kk != k) by {
                            assert(idx[idx.len() - 1] == k);
                        }
                        assert(!idx0.contains(kk)) by {
                            if idx0.contains(kk) {
                                let i1 = choose|i1: int| 0 <= i1 < idx0.len() && idx0[i1] == kk;
                                assert(idx[i1] == kk);
                            }
                        }
                        let i = choose|i: int|
                            0 <= i < idx0.len() && idx0[i] < kk && #[trigger] tree_ids(old_comps[i]).contains(ns[kk].value.identity_text());
                        assert(cs[i] == old_comps[i] && idx[i] == idx0[i]);
                    }
                }
            }
              }
        } else {
            proof {
              if exact_clone::<V>() {
                let cs = component_trees(comps@);
                let c = ns[k as int].value.identity_text();
                assert(held_in(cs, cs.len() as int, c));
                assert forall|kk: int|
                    0 <= kk < k + 1 && !idx.contains(kk) implies exists|i: int|
                    0 <= i < idx.len() && idx[i] < kk && #[trigger] tree_ids(cs[i]).contains(ns[kk].value.identity_text()) by {
                    if kk == k {
                        let i0 = choose|i0: int| 0 <= i0 < cs.len() && #[trigger] tree_ids(cs[i0]).contains(c);
                        assert(idx[i0] < k);
                    }
                }
              }
            }
        }
        k = k + 1;
    }
    proof {
        assert(exact_clone::<V>() ==> components_upto(*q, *weight, q.nodes_spec(), component_trees(comps@), idx, q.nodes_spec().len() as int));
    }
    comps
}


// ---------------------------------------------------------------------------
// Simple paths
// ---------------------------------------------------------------------------

/// `path` continues `prefix` to `to_id`: it starts with `prefix`, is a walk, holds no
/// identity twice, and ends at a node of identity `to_id`.
pub open spec fn extends_to<V: GraphValue + Clone, Q: GraphQuery<V>, W: TraversalWeight<V>>(
    q: Q,
    w: W,
    prefix: Seq<Tree<V>>,
    to_id: Seq<char>,
    path: Seq<Tree<V>>,
) -> bool {
    &&& path.len() >= prefix.len()
    &&& path.take(prefix.len() as int) == prefix
    &&& is_walk(q, w, path)
    &&& tree_ids(path).no_duplicates()
    &&& path.last().value.identity_text() == to_id
}

/// A copy of a list of patterns.
fn copy_patterns<V: Clone>(v: &Vec<Pattern<V>>) -> (r: Vec<Pattern<V>>)
    ensures
        exact_clone::<V>() ==> patterns_forest(r@) == patterns_forest(v@),
{
    let mut r: Vec<Pattern<V>> = Vec::new();
    let mut i: usize = 0;
    while i < v.len()
        invariant
            i <= v.len(),
            exact_clone::<V>() ==> patterns_forest(r@) == patterns_forest(v@).take(i as int),
        decreases v.len() - i,
    {
        let ghost before = r@;
        r.push(copy_of(&v[i]));
        proof {
            if exact_clone::<V>() {
                assert(patterns_forest(r@) =~= patterns_forest(v@).take(i + 1));
            }
        }
        i = i + 1;
    }
    proof {
        assert(patterns_forest(v@).take(v.len() as int) =~= patterns_forest(v@));
    }
    r
}

/// A walk followed by a neighbour of its last member is a walk.
proof fn lemma_walk_push<V: GraphValue + Clone, Q: GraphQuery<V>, W: TraversalWeight<V>>(
    q: Q,
    w: W,
    p: Seq<Tree<V>>,
    m: Tree<V>,
)
    requires
        p.len() > 0,
        is_walk(q, w, p),
        neighbors_of(q, w, p.last()).contains(m),
    ensures
        is_walk(q, w, p.push(m)),
{
    let p2 = p.push(m);
    assert forall|i: int| 0 <= i < p2.len() - 1 implies #[trigger] neighbors_of(q, w, p2[i]).contains(p2[i + 1]) by {
        if i < p.len() - 1 {
            assert(p2[i] == p[i] && p2[i + 1] == p[i + 1]);
            assert(neighbors_of(q, w, p[i]).contains(p[i + 1]));
        } else {
            assert(p2[i] == p.last());
        }
    }
}

/// Appends to `all` every continuation of the path `current_path` (whose last member
/// is `current`) to `to`'s identity, exploring the neighbours of `current` whose
/// identity is not yet on the path, in order; `visited` holds the path's identities.
fn all_paths_dfs<V: GraphValue + Clone, Q: GraphQuery<V>, W: TraversalWeight<V>>(
    q: &Q,
    weight: &W,
    current: &Pattern<V>,
    to: &Pattern<V>,
    visited: &mut Vec<Symbol>,
    current_path: &mut Vec<Pattern<V>>,
    all: &mut Vec<Vec<Pattern<V>>>,
    nodes: &Vec<Pattern<V>>,
    Ghost(bound): Ghost<Set<Seq<char>>>,
)
    requires
        ends_in_nodes(*q),
        bound.finite(),
        tree_ids(patterns_forest(nodes@)).to_set().subset_of(bound),
        exact_clone::<V>() ==> patterns_forest(nodes@) == q.nodes_spec(),
        exact_clone::<V>() ==> node_ids(*q).subset_of(bound),
        old(current_path).len() > 0,
        exact_clone::<V>() ==> current@ == patterns_forest(old(current_path)@).last(),
        exact_clone::<V>() ==> is_walk(*q, *weight, patterns_forest(old(current_path)@)),
        exact_clone::<V>() ==> symbol_texts(old(visited)@) == tree_ids(patterns_forest(old(current_path)@)),
        symbol_texts(old(visited)@).no_duplicates(),
        symbol_set(old(visited)@).subset_of(bound),
    ensures
        final(current_path)@ == old(current_path)@,
        exact_clone::<V>() ==> patterns_forest(final(current_path)@) == patterns_forest(old(current_path)@),
        symbol_texts(final(visited)@) == symbol_texts(old(visited)@),
        exact_clone::<V>() ==> component_trees(final(all)@).take(old(all).len() as int) == component_trees(old(all)@),
        final(all).len() >= old(all).len(),
        exact_clone::<V>() ==> forall|k: int|
            old(all).len() <= k < final(all).len() ==> extends_to(
                *q,
                *weight,
                patterns_forest(old(current_path)@),
                to@.value.identity_text(),
                #[trigger] component_trees(final(all)@)[k],
            ),
        exact_clone::<V>() ==> forall|path: Seq<Tree<V>>|
            #[trigger] extends_to(*q, *weight, patterns_forest(old(current_path)@), to@.value.identity_text(), path)
                ==> component_trees(final(all)@).skip(old(all).len() as int).contains(path),
    decreases bound.difference(symbol_set(old(visited)@)).len(),
{
    let ghost p0 = patterns_forest(current_path@);
    let ghost cp0 = current_path@;
    let ghost all0 = component_trees(all@);
    let ghost to_id = to@.value.identity_text();
    proof {
        if exact_clone::<V>() {
        lemma_pattern_view(*current);
        lemma_pattern_view(*to);
    }
    }
    if *current.value.identify() == *to.value.identify() {
        let copy = copy_patterns(current_path);
        all.push(copy);
        proof {
            if exact_clone::<V>() {
            let ts = component_trees(all@);
            assert(ts =~= all0.push(p0));
            assert(ts.take(all0.len() as int) =~= all0);
            assert(p0.take(p0.len() as int) =~= p0);
            assert(extends_to(*q, *weight, p0, to_id, p0)) by {
                assert(tree_ids(p0) == symbol_texts(visited@));
            }
            assert forall|path: Seq<Tree<V>>| #[trigger] extends_to(*q, *weight, p0, to_id, path) implies ts.skip(
                all0.len() as int,
            ).contains(path) by {
                if path.len() > p0.len() {
                    let a = p0.len() - 1;
                    let b = path.len() - 1;
                    assert(path[a] == p0[a]);
                    assert(tree_ids(path)[a] == tree_ids(path)[b]);
                }
                assert(path =~= p0);
                assert(ts.skip(all0.len() as int)[0] == p0);
            }
        }
        }
        return;
    }
    let nbrs = reachable_neighbors(q, weight, current);
    let ghost ns = patterns_forest(nbrs@);
    let mut j: usize = 0;
    proof {
        if exact_clone::<V>() {
        assert(component_trees(all@).skip(all0.len() as int) =~= Seq::<Seq<Tree<V>>>::empty());
    }
    }
    while j < nbrs.len()
        invariant
            ends_in_nodes(*q),
            bound.finite(),
            tree_ids(patterns_forest(nodes@)).to_set().subset_of(bound),
            exact_clone::<V>() ==> patterns_forest(nodes@) == q.nodes_spec(),
            current_path@ == cp0,
            cp0 == old(current_path)@,
            symbol_texts(visited@) == symbol_texts(old(visited)@),
            exact_clone::<V>() ==> node_ids(*q).subset_of(bound),
            p0.len() > 0,
            exact_clone::<V>() ==> current@ == p0.last(),
            exact_clone::<V>() ==> current@.value.identity_text() != to_id,
            to_id == to@.value.identity_text(),
            exact_clone::<V>() ==> is_walk(*q, *weight, p0),
            ns == patterns_forest(nbrs@),
            exact_clone::<V>() ==> ns == neighbors_of(*q, *weight, current@),
            j <= nbrs.len(),
            exact_clone::<V>() ==> patterns_forest(current_path@) == p0,
            exact_clone::<V>() ==> symbol_texts(visited@) == tree_ids(p0),
            exact_clone::<V>() ==> symbol_texts(old(visited)@) == tree_ids(p0),
            symbol_texts(visited@).no_duplicates(),
            symbol_set(visited@).subset_of(bound),
            all.len() >= all0.len(),
            exact_clone::<V>() ==> component_trees(all@).take(all0.len() as int) == all0,
            exact_clone::<V>() ==> forall|k: int|
                all0.len() <= k < all.len() ==> extends_to(*q, *weight, p0, to_id, #[trigger] component_trees(all@)[k]),
            exact_clone::<V>() ==> forall|path: Seq<Tree<V>>|
                #[trigger] extends_to(*q, *weight, p0, to_id, path) && path.len() > p0.len() && (exists|j2: int|
                    0 <= j2 < j && ns[j2] == path[p0.len() as int]) ==> component_trees(all@).skip(all0.len() as int).contains(path),
        decreases nbrs.len() - j,
    {
        let nb = &nbrs[j];
        proof {
            if exact_clone::<V>() {
            lemma_pattern_view(*nb);
            assert(ns[j as int] == nb@);
        }
        }
        let ghost all1 = component_trees(all@);
        let is_node = holds_node(nodes, nb.value.identify());
        proof {
            if exact_clone::<V>() {
                lemma_pattern_view(*nb);
                lemma_neighbor_in_nodes(*q, *weight, current@, q.incident_spec(current@), j as int);
                let nids = q.nodes_spec().map_values(|n: Tree<V>| n.value.identity_text());
                assert(node_ids(*q).contains(nb@.value.identity_text()));
                let i = choose|i: int| 0 <= i < nids.len() && nids[i] == nb@.value.identity_text();
                assert(tree_ids(patterns_forest(nodes@))[i] == nb@.value.identity_text());
                assert(is_node);
            }
        }
        if !holds_symbol(visited, nb.value.identify()) && is_node {
            let ghost vis0 = visited@;
            let nsym = nb.value.identify().clone();
            let ghost nid = nsym@;
            visited.push(nsym);
            current_path.push(copy_of(nb));
            let ghost p1 = patterns_forest(current_path@);
            proof {
                assert(symbol_texts(visited@) =~= symbol_texts(vis0).push(nid));
                lemma_symbol_set_push(vis0, visited@.last());
                assert(bound.contains(nid)) by {
                    let i = choose|i: int| 0 <= i < tree_ids(patterns_forest(nodes@)).len() && tree_ids(patterns_forest(nodes@))[i] == nid;
                    assert(tree_ids(patterns_forest(nodes@)).to_set().contains(nid));
                }
                assert(symbol_set(visited@).subset_of(bound));
                assert(symbol_texts(visited@).no_duplicates()) by {
                    assert(!symbol_texts(vis0).contains(nid));
                }
                assert(!symbol_set(vis0).contains(nid));
                assert(symbol_set(vis0) == symbol_set(old(visited)@));
                assert(bound.difference(symbol_set(visited@)).len() < bound.difference(symbol_set(vis0)).len()) by {
                    assert(bound.difference(symbol_set(visited@)) =~= bound.difference(symbol_set(vis0)).remove(nid));
                }
            }
            proof {
                if exact_clone::<V>() {
                assert(p1 =~= p0.push(nb@));
                assert(ns.contains(nb@));
                lemma_walk_push(*q, *weight, p0, nb@);
                assert(symbol_texts(visited@) =~= symbol_texts(vis0).push(nb@.value.identity_text()));
                assert(tree_ids(p1) =~= tree_ids(p0).push(nb@.value.identity_text()));
                lemma_symbol_set_push(vis0, visited@.last());
                lemma_neighbor_in_nodes(*q, *weight, current@, q.incident_spec(current@), j as int);
                assert(symbol_set(visited@).subset_of(bound));
                assert(symbol_set(vis0).contains(nb@.value.identity_text()) == false);
                assert(symbol_set(vis0) == symbol_set(old(visited)@));
                assert(bound.difference(symbol_set(visited@)).len() < bound.difference(symbol_set(vis0)).len()) by {
                    assert(bound.difference(symbol_set(visited@)) =~= bound.difference(symbol_set(vis0)).remove(nb@.value.identity_text()));
                }
                assert(p1.last() == nb@);
            }
            }
            let ghost cp1 = current_path@;
            all_paths_dfs(q, weight, nb, to, visited, current_path, all, nodes, Ghost(bound));
            let ghost all2 = component_trees(all@);
            let ghost vis1 = visited@;
            let _ = current_path.pop();
            let _ = visited.pop();
            proof {
                assert(current_path@ =~= cp1.drop_last());
                assert(cp1.drop_last() =~= cp0);
                assert(symbol_texts(visited@) =~= symbol_texts(vis1).drop_last());
                assert(symbol_texts(vis1).drop_last() =~= symbol_texts(vis0));
            }
            proof {
                if exact_clone::<V>() {
                assert(patterns_forest(current_path@) =~= p1.drop_last());
                assert(p1.drop_last() =~= p0);
                assert(symbol_texts(visited@) =~= symbol_texts(vis1).drop_last());
                assert(symbol_texts(vis1).drop_last() =~= symbol_texts(vis0));
                assert(symbol_set(visited@) == symbol_set(vis0));
                assert(all2.take(all0.len() as int) =~= all0) by {
                    assert(all2.take(all1.len() as int) == all1);
                    assert(all1.take(all0.len() as int) == all0);
                }
                assert forall|k: int| all0.len() <= k < all.len() implies extends_to(
                    *q,
                    *weight,
                    p0,
                    to_id,
                    #[trigger] component_trees(all@)[k],
                ) by {
                    let path = all2[k];
                    if k < all1.len() {
                        assert(all2.take(all1.len() as int)[k] == all1[k]);
                    } else {
                        assert(extends_to(*q, *weight, p1, to_id, path));
                        assert(path.take(p0.len() as int) =~= p1.take(p0.len() as int));
                        assert(p1.take(p0.len() as int) =~= p0);
                    }
                }
                assert forall|path: Seq<Tree<V>>|
                    #[trigger] extends_to(*q, *weight, p0, to_id, path) && path.len() > p0.len() && (exists|j2: int|
                        0 <= j2 < j + 1 && ns[j2] == path[p0.len() as int]) implies all2.skip(all0.len() as int).contains(path) by {
                    let j2 = choose|j2: int| 0 <= j2 < j + 1 && ns[j2] == path[p0.len() as int];
                    if j2 < j {
                        let i = choose|i: int| 0 <= i < all1.skip(all0.len() as int).len() && all1.skip(all0.len() as int)[i] == path;
                        assert(all2[all0.len() + i] == all1[all0.len() + i]) by {
                            assert(all2.take(all1.len() as int)[all0.len() + i] == all1[all0.len() + i]);
                        }
                        assert(all2.skip(all0.len() as int)[i] == path);
                    } else {
                        assert(path[p0.len() as int] == nb@);
                        assert(path.take(p1.len() as int) =~= p1) by {
                            assert(path.take(p0.len() as int) == p0);
                            assert forall|i: int| 0 <= i < p1.len() implies path.take(p1.len() as int)[i] == p1[i] by {
                                if i < p0.len() {
                                    assert(path.take(p0.len() as int)[i] == p0[i]);
                                }
                            }
                        }
                        assert(extends_to(*q, *weight, p1, to_id, path));
                        assert(all2.skip(all1.len() as int).contains(path));
                        let i = choose|i: int| 0 <= i < all2.skip(all1.len() as int).len() && all2.skip(all1.len() as int)[i] == path;
                        assert(all2.skip(all0.len() as int)[all1.len() - all0.len() + i] == path);
                    }
                }
            }
            }
        } else {
            proof {
                if exact_clone::<V>() {
                assert forall|path: Seq<Tree<V>>|
                    #[trigger] extends_to(*q, *weight, p0, to_id, path) && path.len() > p0.len() && (exists|j2: int|
                        0 <= j2 < j + 1 && ns[j2] == path[p0.len() as int]) implies all1.skip(all0.len() as int).contains(path) by {
                    let j2 = choose|j2: int| 0 <= j2 < j + 1 && ns[j2] == path[p0.len() as int];
                    if j2 == j {
                        let c = nb@.value.identity_text();
                        assert(symbol_texts(visited@).contains(c));
                        let a = choose|a: int| 0 <= a < tree_ids(p0).len() && tree_ids(p0)[a] == c;
                        assert(path[a] == p0[a]) by {
                            assert(path.take(p0.len() as int)[a] == p0[a]);
                        }
                        assert(tree_ids(path)[a] == tree_ids(path)[p0.len() as int]);
                    }
                }
            }
            }
        }
        j = j + 1;
    }
    proof {
        if exact_clone::<V>() {
        assert forall|path: Seq<Tree<V>>| #[trigger] extends_to(*q, *weight, p0, to_id, path) implies component_trees(
            all@,
        ).skip(all0.len() as int).contains(path) by {
            if path.len() == p0.len() {
                assert(path.take(p0.len() as int) =~= path);
                assert(path.last() == p0.last());
            } else {
                let k = p0.len() - 1;
                assert(path[k] == p0[k]) by {
                    assert(path.take(p0.len() as int)[k] == p0[k]);
                }
                assert(neighbors_of(*q, *weight, path[k]).contains(path[k + 1]));
                let m = choose|m: int| 0 <= m < ns.len() && ns[m] == path[p0.len() as int];
            }
        }
    }
    }
}

/// Every simple path from `from` to a node with `to`'s identity (no identity twice),
/// found depth first.
pub fn all_paths<V: GraphValue + Clone, Q: GraphQuery<V>, W: TraversalWeight<V>>(
    q: &Q,
    weight: &W,
    from: &Pattern<V>,
    to: &Pattern<V>,
) -> (r: Vec<Vec<Pattern<V>>>)
    requires
        ends_in_nodes(*q),
    ensures
        exact_clone::<V>() ==> forall|k: int|
            0 <= k < r.len() ==> extends_to(*q, *weight, seq![from@], to@.value.identity_text(), #[trigger] component_trees(r@)[k]),
        exact_clone::<V>() ==> forall|path: Seq<Tree<V>>|
            #[trigger] extends_to(*q, *weight, seq![from@], to@.value.identity_text(), path) ==> component_trees(r@).contains(path),
{
    let nodes = q.query_nodes();
    let ghost bound = tree_ids(patterns_forest(nodes@)).to_set().insert(from@.value.identity_text());
    proof {
        vstd::seq_lib::seq_to_set_is_finite(tree_ids(patterns_forest(nodes@)));
        lemma_pattern_view(*from);
        if exact_clone::<V>() {
            assert(tree_ids(patterns_forest(nodes@)) =~= q.nodes_spec().map_values(|n: Tree<V>| n.value.identity_text()));
            assert(node_ids(*q).subset_of(bound));
        }
    }
    let mut all: Vec<Vec<Pattern<V>>> = Vec::new();
    let mut current_path: Vec<Pattern<V>> = Vec::new();
    current_path.push(copy_of(from));
    let mut visited: Vec<Symbol> = Vec::new();
    visited.push(from.value.identify().clone());
    proof {
        lemma_symbol_set_push(Seq::empty(), visited@[0]);
        assert(Seq::<Symbol>::empty().push(visited@[0]) =~= visited@);
        assert(symbol_set(Seq::<Symbol>::empty()) =~= Set::<Seq<char>>::empty());
        assert(symbol_texts(visited@).no_duplicates());
        if exact_clone::<V>() {
            assert(patterns_forest(current_path@) =~= seq![from@]);
            assert(symbol_texts(visited@) =~= tree_ids(seq![from@]));
            assert(is_walk(*q, *weight, seq![from@]));
        }
        assert(component_trees(all@) =~= Seq::<Seq<Tree<V>>>::empty());
    }
    all_paths_dfs(q, weight, from, to, &mut visited, &mut current_path, &mut all, &nodes, Ghost(bound));
    proof {
        assert(component_trees(all@).skip(0) =~= component_trees(all@));
    }
    all
}

} // verus!
