use vstd::prelude::*;

use crate::graph::algorithms::{has_forward_cycle, ordered_forward, pattern_ids, targets_in_nodes, topological_sort};
use crate::graph::graph_classifier::GraphValue;
use crate::graph::graph_query::GraphQuery;
use crate::graph::graph_view::GraphView;
use crate::pattern::{lemma_pattern_view, patterns_forest, Pattern};
use crate::pattern_graph::{has_key, keyed, keys_distinct, lemma_keyed_at, position_of};
use crate::reconcile::exact_clone;
use crate::subject::Symbol;
use crate::tree::Tree;

verus! {

/// A result as itself.
pub open spec fn as_is<R>() -> spec_fn(R) -> R {
    |r: R| r
}

/// The results by identity.
pub open spec fn results_map<R>(results: Seq<(Symbol, R)>) -> Map<Seq<char>, R> {
    keyed(results, as_is())
}

/// What `rel` contributes to the inputs of `n`: the result recorded for its source,
/// when `rel` ends at `n` (by identity), has a source, and a result is recorded for it.
pub open spec fn pred_of<V: GraphValue + Clone, Q: GraphQuery<V>, R>(
    q: Q,
    n: Tree<V>,
    results: Map<Seq<char>, R>,
    rel: Tree<V>,
) -> Seq<R> {
    let tgt = q.target_spec(rel);
    let src = q.source_spec(rel);
    if tgt is Some && (tgt->Some_0).value.identity_text() == n.value.identity_text() && src is Some
        && results.contains_key((src->Some_0).value.identity_text()) {
        seq![results[(src->Some_0).value.identity_text()]]
    } else {
        Seq::empty()
    }
}

/// What the relationships `rels` contribute to the inputs of `n`, in order.
pub open spec fn preds_among<V: GraphValue + Clone, Q: GraphQuery<V>, R>(
    q: Q,
    n: Tree<V>,
    results: Map<Seq<char>, R>,
    rels: Seq<Tree<V>>,
) -> Seq<R>
    decreases rels.len(),
{
    if rels.len() == 0 {
        Seq::empty()
    } else {
        preds_among(q, n, results, rels.drop_last()) + pred_of(q, n, results, rels.last())
    }
}

/// The inputs of `n`: the recorded results of the sources of the relationships that
/// end at it, in the order of its incident relationships.
pub open spec fn preds_of<V: GraphValue + Clone, Q: GraphQuery<V>, R>(
    q: Q,
    n: Tree<V>,
    results: Map<Seq<char>, R>,
) -> Seq<R> {
    preds_among(q, n, results, q.incident_spec(n))
}

/// `f` can return `v` for `n` given the inputs `preds`.
pub open spec fn computes<V, Q, R, F: Fn(&Q, &Pattern<V>, &[R]) -> R>(
    f: F,
    q: Q,
    n: Pattern<V>,
    preds: Seq<R>,
    v: R,
) -> bool {
    exists|s: &[R]| s@ == preds && #[trigger] f.ensures((&q, &n, s), v)
}

/// `after` is `before` with the result that `f` returned for `n` on its inputs from
/// `before`.
pub open spec fn para_step<V: GraphValue + Clone, Q: GraphQuery<V>, R, F: Fn(&Q, &Pattern<V>, &[R]) -> R>(
    f: F,
    q: Q,
    n: Pattern<V>,
    before: Map<Seq<char>, R>,
    after: Map<Seq<char>, R>,
) -> bool {
    exists|v: R| #[trigger] computes(f, q, n, preds_of(q, n@, before), v) && after == before.insert(n@.value.identity_text(), v)
}

/// `maps` traces the fold over `order`: it starts with no results, and each step
/// records the next node's result, computed from the results before it.
pub open spec fn para_trace<V: GraphValue + Clone, Q: GraphQuery<V>, R, F: Fn(&Q, &Pattern<V>, &[R]) -> R>(
    f: F,
    q: Q,
    order: Seq<Pattern<V>>,
    maps: Seq<Map<Seq<char>, R>>,
) -> bool {
    &&& maps.len() == order.len() + 1
    &&& maps[0] == Map::<Seq<char>, R>::empty()
    &&& forall|i: int| 0 <= i < order.len() ==> #[trigger] para_step(f, q, order[i], maps[i], maps[i + 1])
}

/// The order in which `para_graph` visits the nodes: one in which every node comes
/// before its forward neighbours, covering all nodes, when there is one; otherwise,
/// when a forward cycle exists, the nodes as the query lists them.
pub open spec fn para_order<V: GraphValue + Clone, Q: GraphQuery<V>>(q: Q, order: Seq<Pattern<V>>) -> bool {
    ||| (forall|k: int| 0 <= k < q.nodes_spec().len() ==> pattern_ids(order).contains(#[trigger] q.nodes_spec()[k].value.identity_text()))
        && ordered_forward(q, patterns_forest(order))
    ||| has_forward_cycle(q) && patterns_forest(order) == q.nodes_spec()
}

/// The inputs of `node`, read from `results`.
fn predecessor_results<V: GraphValue + Clone, Q: GraphQuery<V>, R: Clone>(
    query: &Q,
    node: &Pattern<V>,
    results: &Vec<(Symbol, R)>,
) -> (r: Vec<R>)
    requires
        keys_distinct(results@),
    ensures
        exact_clone::<V>() && exact_clone::<R>() ==> r@ == preds_of(*query, node@, results_map(results@)),
{
    proof {
        lemma_pattern_view(*node);
    }
    let node_id = node.value.identify();
    let rels = query.query_incident_rels(node);
    let ghost s = patterns_forest(rels@);
    let ghost m = results_map(results@);
    let mut preds: Vec<R> = Vec::new();
    let mut i: usize = 0;
    proof {
        assert(preds@ =~= preds_among(*query, node@, m, s.take(0)));
    }
    while i < rels.len()
        invariant
            i <= rels.len(),
            s == patterns_forest(rels@),
            exact_clone::<V>() ==> s == query.incident_spec(node@),
            node_id@ == node@.value.identity_text(),
            keys_distinct(results@),
            m == results_map(results@),
            exact_clone::<V>() && exact_clone::<R>() ==> preds@ == preds_among(*query, node@, m, s.take(i as int)),
        decreases rels.len() - i,
    {
        let rel = &rels[i];
        proof {
            crate::tree::lemma_take_step(s, i as int);
            assert(s[i as int] == rel@);
        }
        let ghost before = preds@;
        let ghost mut contributed: Seq<R> = Seq::empty();
        match query.query_target(rel) {
            Some(tgt) => {
                proof {
                    lemma_pattern_view(tgt);
                }
                if *tgt.value.identify() == *node_id {
                    match query.query_source(rel) {
                        Some(src) => {
                            proof {
                                lemma_pattern_view(src);
                            }
                            match position_of(results, src.value.identify()) {
                                Some(k) => {
                                    let v = results[k].1.clone();
                                    proof {
                                        lemma_keyed_at(results@, as_is(), k as int);
                                        assert(cloned(results@[k as int].1, v));
                                        contributed = seq![v];
                                    }
                                    preds.push(v);
                                },
                                None => {
                                    proof {
                                        assert(!m.contains_key(src@.value.identity_text()));
                                    }
                                },
                            }
                        },
                        None => {},
                    }
                }
            },
            None => {},
        }
        proof {
            if exact_clone::<V>() && exact_clone::<R>() {
                assert(preds@ =~= before + contributed);
                assert(contributed == pred_of(*query, node@, m, rel@));
                assert(preds@ =~= preds_among(*query, node@, m, s.take(i + 1)));
            }
        }
        i = i + 1;
    }
    proof {
        assert(s.take(rels.len() as int) =~= s);
    }
    preds
}

/// Records `value` under `id`, replacing what was there.
fn put_result<R>(results: &mut Vec<(Symbol, R)>, id: Symbol, value: R)
    requires
        keys_distinct(old(results)@),
    ensures
        keys_distinct(final(results)@),
        results_map(final(results)@) == results_map(old(results)@).insert(id@, value),
        forall|x: Seq<char>| has_key(final(results)@, x) <==> (has_key(old(results)@, x) || x == id@),
        exists|k: int| 0 <= k < final(results)@.len() && final(results)@[k] == (id, value),
        forall|k: int|
            0 <= k < final(results)@.len() && final(results)@[k].0@ != id@ ==> exists|j: int|
                0 <= j < old(results)@.len() && old(results)@[j] == #[trigger] final(results)@[k],
{
    let ghost before = results@;
    match position_of(results, &id) {
        Some(k) => {
            proof {
                crate::pattern_graph::lemma_keyed_update(before, as_is(), k as int, id, value);
            }
            results.set(k, (id, value));
            proof {
                assert forall|x: Seq<char>| has_key(results@, x) <==> (has_key(before, x) || x == id@) by {
                    if has_key(before, x) {
                        let j = choose|j: int| 0 <= j < before.len() && (#[trigger] before[j]).0@ == x;
                        assert(results@[j].0@ == x);
                    }
                    if has_key(results@, x) {
                        let j = choose|j: int| 0 <= j < results@.len() && (#[trigger] results@[j]).0@ == x;
                        assert(before[j].0@ == x);
                    }
                }
                assert(results@[k as int] == (id, value));
                assert forall|m: int| 0 <= m < results@.len() && results@[m].0@ != id@ implies exists|j: int|
                    0 <= j < before.len() && before[j] == #[trigger] results@[m] by {
                    assert(before[m] == results@[m]);
                }
            }
        },
        None => {
            proof {
                crate::pattern_graph::lemma_keyed_push(before, as_is(), id, value);
            }
            results.push((id, value));
            proof {
                assert forall|x: Seq<char>| has_key(results@, x) <==> (has_key(before, x) || x == id@) by {
                    if has_key(before, x) {
                        let j = choose|j: int| 0 <= j < before.len() && (#[trigger] before[j]).0@ == x;
                        assert(results@[j] == before[j]);
                    }
                    if x == id@ {
                        assert(results@[before.len() as int].0@ == x);
                    }
                    if has_key(results@, x) && x != id@ {
                        let j = choose|j: int| 0 <= j < results@.len() && (#[trigger] results@[j]).0@ == x;
                        assert(before[j] == results@[j]);
                    }
                }
                assert(results@[before.len() as int] == (id, value));
                assert forall|m: int| 0 <= m < results@.len() && results@[m].0@ != id@ implies exists|j: int|
                    0 <= j < before.len() && before[j] == #[trigger] results@[m] by {
                    assert(before[m] == results@[m]);
                }
            }
        },
    }
}

/// Computes a result for every node, visiting the nodes in an order where each comes
/// before its forward neighbours when there is one (otherwise in the order of the
/// nodes); `f` gets each node with the results already computed for the sources of
/// the relationships that end at it, in the order of its incident relationships.
pub fn para_graph<Extra, V: GraphValue + Clone, Q: GraphQuery<V>, R: Clone, F>(f: F, view: &GraphView<Extra, V, Q>) -> (r: Vec<(Symbol, R)>)
    where
        F: Fn(&Q, &Pattern<V>, &[R]) -> R,
    requires
        targets_in_nodes(view.view_query),
        forall|q: &Q, n: &Pattern<V>, preds: &[R]| #[trigger] f.requires((q, n, preds)),
    ensures
        keys_distinct(r@),
        exact_clone::<V>() ==> forall|k: int| 0 <= k < view.view_query.nodes_spec().len() ==> has_key(r@, #[trigger] view.view_query.nodes_spec()[k].value.identity_text()),
        exact_clone::<V>() && exact_clone::<R>() ==> exists|order: Seq<Pattern<V>>, maps: Seq<Map<Seq<char>, R>>|
            #![trigger para_trace(f, view.view_query, order, maps)]
            para_order(view.view_query, order) && para_trace(f, view.view_query, order, maps) && results_map(r@) == maps.last(),
{
    let query = &view.view_query;
    let ordered = match topological_sort(query) {
        Some(o) => o,
        None => query.query_nodes(),
    };
    proof {
        if exact_clone::<V>() {
            assert forall|k: int| 0 <= k < query.nodes_spec().len() implies pattern_ids(ordered@).contains(#[trigger] query.nodes_spec()[k].value.identity_text()) by {
                if patterns_forest(ordered@) == query.nodes_spec() {
                    lemma_pattern_view(ordered@[k]);
                    assert(pattern_ids(ordered@)[k] == query.nodes_spec()[k].value.identity_text());
                }
            }
            assert(para_order(*query, ordered@));
        }
    }
    let mut results: Vec<(Symbol, R)> = Vec::new();
    let ghost mut maps: Seq<Map<Seq<char>, R>> = seq![results_map(results@)];
    let mut i: usize = 0;
    proof {
        assert(results_map(results@) =~= Map::<Seq<char>, R>::empty());
    }
    while i < ordered.len()
        invariant
            i <= ordered.len(),
            forall|q: &Q, n: &Pattern<V>, preds: &[R]| #[trigger] f.requires((q, n, preds)),
            exact_clone::<V>() ==> para_order(*query, ordered@),
            exact_clone::<V>() ==> forall|k: int| 0 <= k < query.nodes_spec().len() ==> pattern_ids(ordered@).contains(#[trigger] query.nodes_spec()[k].value.identity_text()),
            keys_distinct(results@),
            forall|k: int| 0 <= k < i ==> has_key(results@, #[trigger] pattern_ids(ordered@)[k]),
            maps.len() == i + 1,
            maps[0] == Map::<Seq<char>, R>::empty(),
            maps.last() == results_map(results@),
            exact_clone::<V>() && exact_clone::<R>() ==> forall|j: int| 0 <= j < i ==> #[trigger] para_step(f, *query, ordered@[j], maps[j], maps[j + 1]),
        decreases ordered.len() - i,
    {
        let node = &ordered[i];
        proof {
            lemma_pattern_view(*node);
        }
        let preds = predecessor_results(query, node, &results);
        let slice = preds.as_slice();
        let value = f(query, node, slice);
        let id = node.value.identify().clone();
        let ghost m0 = results_map(results@);
        let ghost maps0 = maps;
        proof {
            assert(f.ensures((query, node, slice), value));
        }
        put_result(&mut results, id, value);
        proof {
            maps = maps.push(results_map(results@));
            assert(pattern_ids(ordered@)[i as int] == id@);
            if exact_clone::<V>() && exact_clone::<R>() {
                assert(slice@ == preds_of(*query, node@, m0));
                assert(computes(f, *query, ordered@[i as int], preds_of(*query, node@, m0), value));
                assert forall|j: int| 0 <= j < i + 1 implies #[trigger] para_step(f, *query, ordered@[j], maps[j], maps[j + 1]) by {
                    if j < i {
                        assert(maps[j] == maps0[j] && maps[j + 1] == maps0[j + 1]);
                    } else {
                        assert(maps[j] == m0);
                    }
                }
            }
        }
        i = i + 1;
    }
    proof {
        if exact_clone::<V>() {
            assert forall|k: int| 0 <= k < query.nodes_spec().len() implies has_key(results@, #[trigger] query.nodes_spec()[k].value.identity_text()) by {
                let x = query.nodes_spec()[k].value.identity_text();
                let j = choose|j: int| 0 <= j < pattern_ids(ordered@).len() && pattern_ids(ordered@)[j] == x;
                assert(has_key(results@, pattern_ids(ordered@)[j]));
            }
        }
        if exact_clone::<V>() && exact_clone::<R>() {
            assert(para_trace(f, *query, ordered@, maps));
        }
    }
    results
}

/// The results for `ids` with `vals`, position by position, later ones replacing
/// earlier ones of the same identity.
pub open spec fn recorded<R>(ids: Seq<Seq<char>>, vals: Seq<R>) -> Map<Seq<char>, R>
    decreases ids.len(),
{
    if ids.len() == 0 || vals.len() == 0 {
        Map::empty()
    } else {
        recorded(ids.drop_last(), vals.drop_last()).insert(ids.last(), vals.last())
    }
}

/// `vals` are results `f` can return for `nodes` from their inputs in `current`, and
/// `oks` what `converged` can answer on each node's result in `current` and its new
/// one, where `current` holds one.
pub open spec fn round_outcome<V: GraphValue + Clone, Q: GraphQuery<V>, R, F: Fn(&Q, &Pattern<V>, &[R]) -> R, Cv: Fn(&R, &R) -> bool>(
    f: F,
    converged: Cv,
    q: Q,
    nodes: Seq<Pattern<V>>,
    current: Map<Seq<char>, R>,
    vals: Seq<R>,
    oks: Seq<bool>,
) -> bool {
    &&& vals.len() == nodes.len()
    &&& oks.len() == nodes.len()
    &&& forall|i: int| 0 <= i < nodes.len() ==> #[trigger] computes(f, q, nodes[i], preds_of(q, nodes[i]@, current), vals[i])
    &&& forall|i: int|
        0 <= i < nodes.len() && current.contains_key(#[trigger] nodes[i]@.value.identity_text()) ==> converged.ensures(
            (&current[nodes[i]@.value.identity_text()], &vals[i]),
            oks[i],
        )
}

/// Every node that `current` holds a result for was judged converged.
pub open spec fn all_converged<V: GraphValue, R>(nodes: Seq<Pattern<V>>, current: Map<Seq<char>, R>, oks: Seq<bool>) -> bool {
    forall|i: int| 0 <= i < nodes.len() && current.contains_key(#[trigger] nodes[i]@.value.identity_text()) ==> oks[i]
}

/// One round of the fixed-point computation over `nodes`: each node's result is
/// recomputed from the previous round's results `current` for the sources of the
/// relationships that end at it; the round has converged when `converged` accepts
/// every recomputed result against the node's previous one.
pub fn para_graph_fixed_round<V: GraphValue + Clone, Q: GraphQuery<V>, R: Clone, F, Cv>(
    converged: &Cv,
    f: &F,
    query: &Q,
    nodes: &Vec<Pattern<V>>,
    current: &Vec<(Symbol, R)>,
) -> (r: (Vec<(Symbol, R)>, bool)) where
    F: Fn(&Q, &Pattern<V>, &[R]) -> R,
    Cv: Fn(&R, &R) -> bool,
    requires
        keys_distinct(current@),
        forall|q: &Q, n: &Pattern<V>, preds: &[R]| #[trigger] f.requires((q, n, preds)),
        forall|a: &R, b: &R| #[trigger] converged.requires((a, b)),
    ensures
        keys_distinct(r.0@),
        forall|k: int| 0 <= k < nodes.len() ==> has_key(r.0@, #[trigger] pattern_ids(nodes@)[k]),
        exact_clone::<V>() && exact_clone::<R>() ==> exists|vals: Seq<R>, oks: Seq<bool>|
            #![trigger round_outcome(*f, *converged, *query, nodes@, results_map(current@), vals, oks)]
            round_outcome(*f, *converged, *query, nodes@, results_map(current@), vals, oks)
                && results_map(r.0@) == recorded(pattern_ids(nodes@), vals)
                && r.1 == all_converged(nodes@, results_map(current@), oks),
{
    let ghost cur = results_map(current@);
    let mut next: Vec<(Symbol, R)> = Vec::new();
    let mut all_ok = true;
    let ghost mut vals: Seq<R> = Seq::empty();
    let ghost mut oks: Seq<bool> = Seq::empty();
    let mut i: usize = 0;
    proof {
        assert(results_map(next@) =~= Map::<Seq<char>, R>::empty());
    }
    while i < nodes.len()
        invariant
            i <= nodes.len(),
            keys_distinct(current@),
            cur == results_map(current@),
            forall|q: &Q, n: &Pattern<V>, preds: &[R]| #[trigger] f.requires((q, n, preds)),
            forall|a: &R, b: &R| #[trigger] converged.requires((a, b)),
            keys_distinct(next@),
            forall|k: int| 0 <= k < i ==> has_key(next@, #[trigger] pattern_ids(nodes@)[k]),
            vals.len() == i,
            oks.len() == i,
            results_map(next@) == recorded(pattern_ids(nodes@).take(i as int), vals),
            exact_clone::<V>() && exact_clone::<R>() ==> forall|j: int| 0 <= j < i ==> #[trigger] computes(*f, *query, nodes@[j], preds_of(*query, nodes@[j]@, cur), vals[j]),
            forall|j: int|
                0 <= j < i && cur.contains_key(#[trigger] nodes@[j]@.value.identity_text()) ==> converged.ensures(
                    (&cur[nodes@[j]@.value.identity_text()], &vals[j]),
                    oks[j],
                ),
            all_ok == all_converged(nodes@.take(i as int), cur, oks),
        decreases nodes.len() - i,
    {
        let node = &nodes[i];
        proof {
            lemma_pattern_view(*node);
        }
        let preds = predecessor_results(query, node, current);
        let slice = preds.as_slice();
        let value = f(query, node, slice);
        let id = node.value.identify().clone();
        let ghost ok: bool = true;
        match position_of(current, &id) {
            Some(k) => {
                let same = converged(&current[k].1, &value);
                proof {
                    lemma_keyed_at(current@, as_is(), k as int);
                    ok = same;
                }
                if !same {
                    all_ok = false;
                }
            },
            None => {},
        }
        let ghost vals0 = vals;
        let ghost oks0 = oks;
        let ghost next0 = next@;
        put_result(&mut next, id, value);
        proof {
            vals = vals.push(value);
            oks = oks.push(ok);
            let ids = pattern_ids(nodes@);
            assert(ids[i as int] == id@);
            assert(ids.take(i + 1).drop_last() =~= ids.take(i as int));
            assert(vals.drop_last() =~= vals0);
            assert(results_map(next@) == recorded(ids.take(i + 1), vals));
            assert(nodes@.take(i + 1).drop_last() =~= nodes@.take(i as int));
            assert forall|j: int|
                0 <= j < i + 1 && cur.contains_key(#[trigger] nodes@[j]@.value.identity_text()) implies converged.ensures(
                (&cur[nodes@[j]@.value.identity_text()], &vals[j]),
                oks[j],
            ) by {
                if j < i {
                    assert(vals[j] == vals0[j] && oks[j] == oks0[j]);
                } else {
                    assert(nodes@[j] == *node);
                    assert(has_key(current@, id@));
                }
            }
            assert(all_ok == all_converged(nodes@.take(i + 1), cur, oks)) by {
                let t = nodes@.take(i + 1);
                if all_ok {
                    assert forall|j: int| 0 <= j < t.len() && cur.contains_key(#[trigger] t[j]@.value.identity_text()) implies oks[j] by {
                        if j < i {
                            assert(nodes@.take(i as int)[j] == t[j]);
                            assert(oks[j] == oks0[j]);
                        } else {
                            assert(t[j] == *node);
                            assert(has_key(current@, id@));
                        }
                    }
                } else {
                    if all_converged(nodes@.take(i as int), cur, oks0) {
                        assert(t[i as int] == *node);
                        assert(has_key(current@, id@));
                        assert(!oks[i as int]);
                    } else {
                        let j = choose|j: int| 0 <= j < i && cur.contains_key(#[trigger] nodes@.take(i as int)[j]@.value.identity_text()) && !oks0[j];
                        assert(t[j] == nodes@.take(i as int)[j]);
                        assert(oks[j] == oks0[j]);
                    }
                }
            }
            if exact_clone::<V>() && exact_clone::<R>() {
                assert(slice@ == preds_of(*query, node@, cur));
                assert forall|j: int| 0 <= j < i + 1 implies #[trigger] computes(*f, *query, nodes@[j], preds_of(*query, nodes@[j]@, cur), vals[j]) by {
                    if j < i {
                        assert(vals[j] == vals0[j]);
                    } else {
                        assert(f.ensures((query, node, slice), vals[j]));
                    }
                }
            }
        }
        i = i + 1;
    }
    proof {
        assert(pattern_ids(nodes@).take(nodes.len() as int) =~= pattern_ids(nodes@));
        assert(nodes@.take(nodes.len() as int) =~= nodes@);
        if exact_clone::<V>() && exact_clone::<R>() {
            assert(round_outcome(*f, *converged, *query, nodes@, cur, vals, oks));
        }
    }
    (next, all_ok)
}

/// A round over `ns` may take the results `cur` to `next`, judged converged or not as
/// `ok` says.
pub open spec fn round_step<V: GraphValue + Clone, Q: GraphQuery<V>, R, F: Fn(&Q, &Pattern<V>, &[R]) -> R, Cv: Fn(&R, &R) -> bool>(
    f: F,
    converged: Cv,
    q: Q,
    ns: Seq<Pattern<V>>,
    cur: Map<Seq<char>, R>,
    next: Map<Seq<char>, R>,
    ok: bool,
) -> bool {
    exists|vals: Seq<R>, oks: Seq<bool>|
        #[trigger] round_outcome(f, converged, q, ns, cur, vals, oks) && next == recorded(pattern_ids(ns), vals) && ok
            == all_converged(ns, cur, oks)
}

/// Every round over the query's nodes that is not judged converged lowers `m`.
pub open spec fn settles<V: GraphValue + Clone, Q: GraphQuery<V>, R, F: Fn(&Q, &Pattern<V>, &[R]) -> R, Cv: Fn(&R, &R) -> bool>(
    f: F,
    converged: Cv,
    q: Q,
    m: spec_fn(Map<Seq<char>, R>) -> nat,
) -> bool {
    forall|ns: Seq<Pattern<V>>, cur: Map<Seq<char>, R>, next: Map<Seq<char>, R>|
        patterns_forest(ns) == q.nodes_spec() && #[trigger] round_step(f, converged, q, ns, cur, next, false) ==> m(next) < m(cur)
}

/// The results with which the rounds start: `init` for every node.
pub open spec fn start_results<V: GraphValue, R>(ns: Seq<Pattern<V>>, init: R) -> Map<Seq<char>, R> {
    recorded(pattern_ids(ns), Seq::new(ns.len(), |i: int| init))
}

/// `states` are the results of successive rounds over `ns` from the start, all but the
/// last round unconverged and the last converged.
pub open spec fn fixed_trace<V: GraphValue + Clone, Q: GraphQuery<V>, R, F: Fn(&Q, &Pattern<V>, &[R]) -> R, Cv: Fn(&R, &R) -> bool>(
    f: F,
    converged: Cv,
    q: Q,
    ns: Seq<Pattern<V>>,
    init: R,
    states: Seq<Map<Seq<char>, R>>,
) -> bool {
    &&& states.len() >= 2
    &&& states[0] == start_results(ns, init)
    &&& forall|i: int| 0 <= i < states.len() - 2 ==> #[trigger] round_step(f, converged, q, ns, states[i], states[i + 1], false)
    &&& round_step(f, converged, q, ns, states[states.len() - 2], states[states.len() - 1], true)
}

/// Starts every node at `init` and repeats rounds (see
/// [`para_graph_fixed_round`]) over the nodes until one is judged converged; the
/// results are those of that last round.
pub fn para_graph_fixed<Extra, V: GraphValue + Clone, Q: GraphQuery<V>, R: Clone, F, Cv>(
    converged: Cv,
    f: F,
    init: R,
    view: &GraphView<Extra, V, Q>,
) -> (r: Vec<(Symbol, R)>) where
    F: Fn(&Q, &Pattern<V>, &[R]) -> R,
    Cv: Fn(&R, &R) -> bool,
    requires
        exact_clone::<V>(),
        exact_clone::<R>(),
        forall|q: &Q, n: &Pattern<V>, preds: &[R]| #[trigger] f.requires((q, n, preds)),
        forall|a: &R, b: &R| #[trigger] converged.requires((a, b)),
        exists|m: spec_fn(Map<Seq<char>, R>) -> nat| #[trigger] settles(f, converged, view.view_query, m),
    ensures
        keys_distinct(r@),
        exists|ns: Seq<Pattern<V>>, states: Seq<Map<Seq<char>, R>>|
            #![trigger fixed_trace(f, converged, view.view_query, ns, init, states)]
            patterns_forest(ns) == view.view_query.nodes_spec() && fixed_trace(f, converged, view.view_query, ns, init, states)
                && results_map(r@) == states.last(),
{
    let query = &view.view_query;
    let nodes = query.query_nodes();
    let ghost ids = pattern_ids(nodes@);
    let ghost inits: Seq<R> = Seq::new(nodes.len() as nat, |i: int| init);
    let mut current: Vec<(Symbol, R)> = Vec::new();
    let mut i: usize = 0;
    proof {
        assert(results_map(current@) =~= Map::<Seq<char>, R>::empty());
    }
    while i < nodes.len()
        invariant
            i <= nodes.len(),
            exact_clone::<R>(),
            ids == pattern_ids(nodes@),
            inits == Seq::new(nodes.len() as nat, |k: int| init),
            keys_distinct(current@),
            results_map(current@) == recorded(ids.take(i as int), inits.take(i as int)),
        decreases nodes.len() - i,
    {
        let node = &nodes[i];
        proof {
            lemma_pattern_view(*node);
        }
        let v = init.clone();
        proof {
            assert(cloned(init, v));
        }
        put_result(&mut current, node.value.identify().clone(), v);
        proof {
            assert(ids[i as int] == node@.value.identity_text());
            assert(ids.take(i + 1).drop_last() =~= ids.take(i as int));
            assert(inits.take(i + 1).drop_last() =~= inits.take(i as int));
            assert(inits.take(i + 1).last() == init);
        }
        i = i + 1;
    }
    proof {
        assert(ids.take(nodes.len() as int) =~= ids);
        assert(inits.take(nodes.len() as int) =~= inits);
        assert(results_map(current@) == start_results(nodes@, init));
    }
    let ghost m = choose|m: spec_fn(Map<Seq<char>, R>) -> nat| #[trigger] settles(f, converged, view.view_query, m);
    let ghost mut states: Seq<Map<Seq<char>, R>> = seq![results_map(current@)];
    let mut done = false;
    while !done
        invariant
            exact_clone::<V>(),
            exact_clone::<R>(),
            forall|q: &Q, n: &Pattern<V>, preds: &[R]| #[trigger] f.requires((q, n, preds)),
            forall|a: &R, b: &R| #[trigger] converged.requires((a, b)),
            settles(f, converged, *query, m),
            patterns_forest(nodes@) == query.nodes_spec(),
            keys_distinct(current@),
            states.len() >= 1,
            states[0] == start_results(nodes@, init),
            states.last() == results_map(current@),
            forall|j: int| 0 <= j < states.len() - 2 ==> #[trigger] round_step(f, converged, *query, nodes@, states[j], states[j + 1], false),
            !done ==> forall|j: int| 0 <= j < states.len() - 1 ==> #[trigger] round_step(f, converged, *query, nodes@, states[j], states[j + 1], false),
            done ==> states.len() >= 2 && round_step(f, converged, *query, nodes@, states[states.len() - 2], states[states.len() - 1], true),
        decreases (if done { 0 } else { m(results_map(current@)) + 1 }),
    {
        let (next, ok) = para_graph_fixed_round(&converged, &f, query, &nodes, &current);
        let ghost cur = results_map(current@);
        let ghost states0 = states;
        proof {
            let vals = choose|vals: Seq<R>, oks: Seq<bool>|
                #[trigger] round_outcome(f, converged, *query, nodes@, cur, vals, oks) && results_map(next@) == recorded(pattern_ids(nodes@), vals)
                    && ok == all_converged(nodes@, cur, oks);
            assert(round_step(f, converged, *query, nodes@, cur, results_map(next@), ok));
            states = states.push(results_map(next@));
            if !ok {
                assert(m(results_map(next@)) < m(cur));
            }
            assert forall|j: int| 0 <= j < states.len() - 2 implies #[trigger] round_step(f, converged, *query, nodes@, states[j], states[j + 1], false) by {
                assert(states[j] == states0[j] && states[j + 1] == states0[j + 1]);
            }
            if !ok {
                assert forall|j: int| 0 <= j < states.len() - 1 implies #[trigger] round_step(f, converged, *query, nodes@, states[j], states[j + 1], false) by {
                    if j < states0.len() - 1 {
                        assert(states[j] == states0[j] && states[j + 1] == states0[j + 1]);
                    }
                }
            }
        }
        current = next;
        done = ok;
    }
    proof {
        assert(fixed_trace(f, converged, *query, nodes@, init, states));
    }
    current
}


} // verus!
