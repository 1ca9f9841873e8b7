use pattern_core::graph::algorithms::{
    all_paths, bfs, connected_components, dfs, has_cycle, has_path, is_connected, is_neighbor, query_annotations_of,
    query_co_members, query_walks_containing, topological_sort,
};
use pattern_core::graph::graph_classifier::{
    canonical_classifier, classify_by_shape, from_test_node, Classify, GraphClass, GraphClassifier, GraphValue,
};
use pattern_core::graph::graph_query::{
    directed, directed_reverse, frame_query, memoize_incident_rels, undirected, GraphQuery, TraversalDirection,
    TraversalWeight,
};
use pattern_core::graph::standard::{Placeholder, StandardGraph};
use pattern_core::graph::graph_view::{materialize, view_elements_from_graph, GraphView};
use pattern_core::graph::transform::context::map_with_context;
use pattern_core::graph::transform::map_filter_fold::{filter_graph, fold_graph, map_all_graph, map_graph};
use pattern_core::graph::transform::para::{para_graph, para_graph_fixed, para_graph_fixed_round};
use pattern_core::graph::transform::types::{identity_mappers, CategoryMappers, Substitution};
use pattern_core::graph::transform::unfold_graph::unfold_graph;
use pattern_core::pattern_graph::{from_patterns, from_patterns_with_policy, merge, PatternGraph};
use pattern_core::reconcile::{
    reconcile, ElementMergeStrategy, HasIdentity, Mergeable, ReconciliationPolicy, Refinable,
};
use pattern_core::subject::Symbol;
use pattern_core::Pattern;

#[derive(Clone, Debug, PartialEq)]
struct Item {
    id: Symbol,
    tags: Vec<String>,
}

fn item(id: &str) -> Item {
    Item { id: Symbol(id.to_string()), tags: vec![] }
}

fn tagged(id: &str, tag: &str) -> Item {
    Item { id: Symbol(id.to_string()), tags: vec![tag.to_string()] }
}

impl GraphValue for Item {
    fn identify(&self) -> &Symbol {
        &self.id
    }
}

impl Placeholder for Item {
    fn placeholder(id: &Symbol) -> Item {
        Item { id: id.clone(), tags: vec![] }
    }
}

impl HasIdentity<Item, Symbol> for Item {
    fn identity(v: &Item) -> &Symbol {
        &v.id
    }
}

impl Mergeable for Item {
    type MergeStrategy = ();

    fn merge(_strategy: &(), a: Item, b: Item) -> Item {
        let mut tags = a.tags.clone();
        for t in b.tags {
            if !tags.contains(&t) {
                tags.push(t);
            }
        }
        Item { id: a.id, tags }
    }
}

impl Refinable for Item {
    fn is_refinement_of(sup: &Item, sub: &Item) -> bool {
        sup.id == sub.id && sub.tags.iter().all(|t| sup.tags.contains(t))
    }
}

fn node(id: &str) -> Pattern<Item> {
    Pattern::point(item(id))
}

fn rel(id: &str, a: &str, b: &str) -> Pattern<Item> {
    Pattern::pattern(item(id), vec![node(a), node(b)])
}

fn ids(ps: &[Pattern<Item>]) -> Vec<String> {
    ps.iter().map(|p| p.value().id.0.clone()).collect()
}

/// A graph given by its nodes and relationships, each relationship's first element
/// its source and second its target.
struct TestGraph {
    nodes: Vec<Pattern<Item>>,
    rels: Vec<Pattern<Item>>,
}

impl TestGraph {
    fn new(nodes: &[&str], rels: &[(&str, &str, &str)]) -> TestGraph {
        TestGraph {
            nodes: nodes.iter().map(|n| node(n)).collect(),
            rels: rels.iter().map(|(r, a, b)| rel(r, a, b)).collect(),
        }
    }

    fn end(&self, rel: &Pattern<Item>, k: usize) -> Option<Pattern<Item>> {
        let e = rel.elements().get(k)?;
        self.nodes.iter().find(|n| n.value().id == e.value().id).cloned()
    }
}

impl GraphQuery<Item> for TestGraph {
    fn query_nodes(&self) -> Vec<Pattern<Item>> {
        self.nodes.clone()
    }

    fn query_relationships(&self) -> Vec<Pattern<Item>> {
        self.rels.clone()
    }

    fn query_incident_rels(&self, node: &Pattern<Item>) -> Vec<Pattern<Item>> {
        self.rels
            .iter()
            .filter(|r| r.elements().iter().any(|e| e.value().id == node.value().id))
            .cloned()
            .collect()
    }

    fn query_source(&self, rel: &Pattern<Item>) -> Option<Pattern<Item>> {
        self.end(rel, 0)
    }

    fn query_target(&self, rel: &Pattern<Item>) -> Option<Pattern<Item>> {
        self.end(rel, 1)
    }

    fn query_degree(&self, node: &Pattern<Item>) -> usize {
        self.query_incident_rels(node).len()
    }

    fn query_node_by_id(&self, id: &Symbol) -> Option<Pattern<Item>> {
        self.nodes.iter().find(|n| n.value().id == *id).cloned()
    }

    fn query_relationship_by_id(&self, id: &Symbol) -> Option<Pattern<Item>> {
        self.rels.iter().find(|r| r.value().id == *id).cloned()
    }

    fn query_containers(&self, element: &Pattern<Item>) -> Vec<Pattern<Item>> {
        self.rels
            .iter()
            .filter(|r| r.elements().iter().any(|e| e.value().id == element.value().id))
            .cloned()
            .collect()
    }
}

/// a -> b -> c, a -> d, and e on its own.
fn sample_graph() -> TestGraph {
    TestGraph::new(&["a", "b", "c", "d", "e"], &[("ab", "a", "b"), ("bc", "b", "c"), ("ad", "a", "d")])
}

#[test]
fn shapes_are_classified() {
    assert_eq!(classify_by_shape(&node("n")), GraphClass::GNode);
    assert_eq!(classify_by_shape(&rel("r", "a", "b")), GraphClass::GRelationship);
    let annotation = Pattern::pattern(item("x"), vec![node("a")]);
    assert_eq!(classify_by_shape(&annotation), GraphClass::GAnnotation);
    let walk = Pattern::pattern(item("w"), vec![rel("r1", "a", "b"), rel("r2", "b", "c")]);
    assert_eq!(classify_by_shape(&walk), GraphClass::GWalk);
    let broken = Pattern::pattern(item("w"), vec![rel("r1", "a", "b"), rel("r2", "c", "d")]);
    assert_eq!(classify_by_shape(&broken), GraphClass::GOther(()));
    let three = Pattern::pattern(item("t"), vec![node("a"), node("b"), node("c")]);
    assert_eq!(classify_by_shape(&three), GraphClass::GOther(()));
    assert_eq!(canonical_classifier().classify(&node("n")), GraphClass::GNode);
}

#[test]
fn walks_may_run_against_relationship_direction() {
    let walk = Pattern::pattern(item("w"), vec![rel("r1", "a", "b"), rel("r2", "c", "b"), rel("r3", "c", "d")]);
    assert_eq!(classify_by_shape(&walk), GraphClass::GWalk);
}

#[test]
fn custom_classifiers() {
    let by_tag = from_test_node(|p: &Pattern<Item>| p.value().tags.is_empty());
    assert_eq!(by_tag.classify(&node("n")), GraphClass::GNode);
    assert_eq!(by_tag.classify(&Pattern::point(tagged("n", "x"))), GraphClass::GOther(()));
    let custom = GraphClassifier::new(|p: &Pattern<Item>| {
        if p.value().id.0 == "special" {
            GraphClass::GOther(7)
        } else {
            GraphClass::GNode
        }
    });
    assert_eq!(custom.classify(&node("special")), GraphClass::GOther(7));
    assert_eq!(custom.classify(&node("plain")), GraphClass::GNode);
    assert_eq!(GraphClass::GOther(7).map_other(|x: i32| x * 2), GraphClass::GOther(14));
    assert_eq!(GraphClass::<i32>::GWalk.map_other(|x: i32| x * 2), GraphClass::GWalk);
}

#[test]
fn graph_built_from_patterns() {
    let classifier = canonical_classifier();
    let g: PatternGraph<(), Item> =
        from_patterns(&classifier, vec![rel("r", "a", "b"), node("c"), Pattern::pattern(item("note"), vec![node("c")])]);
    let mut node_ids: Vec<String> = g.pg_nodes.iter().map(|(k, _)| k.0.clone()).collect();
    node_ids.sort();
    assert_eq!(node_ids, vec!["a", "b", "c"]);
    assert_eq!(g.pg_relationships.len(), 1);
    assert_eq!(g.pg_relationships[0].0, Symbol("r".to_string()));
    assert_eq!(g.pg_annotations.len(), 1);
    assert!(g.pg_walks.is_empty());
    assert!(g.pg_conflicts.is_empty());
    let g2 = merge(&classifier, node("d"), g);
    assert_eq!(g2.pg_nodes.len(), 4);
}

#[test]
fn later_occurrence_wins_by_default_and_policies_differ() {
    let classifier = canonical_classifier();
    let first = Pattern::point(tagged("a", "one"));
    let second = Pattern::point(tagged("a", "two"));
    let g: PatternGraph<(), Item> = from_patterns(&classifier, vec![first.clone(), second.clone()]);
    assert_eq!(g.pg_nodes.len(), 1);
    assert_eq!(g.pg_nodes[0].1.value().tags, vec!["two".to_string()]);
    let g: PatternGraph<(), Item> =
        from_patterns_with_policy(&classifier, &ReconciliationPolicy::FirstWriteWins, vec![first.clone(), second.clone()]);
    assert_eq!(g.pg_nodes[0].1.value().tags, vec!["one".to_string()]);
    let merged: PatternGraph<(), Item> = from_patterns_with_policy(
        &classifier,
        &ReconciliationPolicy::Merge(ElementMergeStrategy::UnionElements, ()),
        vec![first.clone(), second.clone()],
    );
    assert_eq!(merged.pg_nodes[0].1.value().tags, vec!["one".to_string(), "two".to_string()]);
    let strict: PatternGraph<(), Item> =
        from_patterns_with_policy(&classifier, &ReconciliationPolicy::Strict, vec![first, second]);
    assert_eq!(strict.pg_conflicts.len(), 1);
}

#[test]
fn reconcile_resolves_duplicate_identities() {
    let inner_a1 = Pattern::point(tagged("a", "one"));
    let inner_a2 = Pattern::point(tagged("a", "two"));
    let root = Pattern::pattern(item("root"), vec![inner_a1, node("b"), inner_a2]);
    let last = reconcile(&ReconciliationPolicy::LastWriteWins, &root).unwrap();
    assert_eq!(ids(last.elements()), vec!["a", "b"]);
    assert_eq!(last.elements()[0].value().tags, vec!["two".to_string()]);
    let first = reconcile(&ReconciliationPolicy::FirstWriteWins, &root).unwrap();
    assert_eq!(first.elements()[0].value().tags, vec!["one".to_string()]);
    let merged = reconcile(&ReconciliationPolicy::Merge(ElementMergeStrategy::AppendElements, ()), &root).unwrap();
    assert_eq!(merged.elements()[0].value().tags, vec!["one".to_string(), "two".to_string()]);
    let err = reconcile(&ReconciliationPolicy::Strict, &root).unwrap_err();
    assert_eq!(err.message, "Duplicate identities with different content");
    let same = Pattern::pattern(item("root"), vec![node("a"), node("a")]);
    let ok = reconcile(&ReconciliationPolicy::Strict, &same).unwrap();
    assert_eq!(ok, Pattern::pattern(item("root"), vec![node("a")]));
}

#[test]
fn reconcile_never_repeats_an_identity_on_a_path() {
    let cyclic = Pattern::pattern(item("a"), vec![Pattern::pattern(item("b"), vec![node("a")])]);
    let r = reconcile(&ReconciliationPolicy::LastWriteWins, &cyclic).unwrap();
    assert_eq!(r.value().id.0, "a");
    assert_eq!(ids(r.elements()), vec!["b"]);
    assert!(r.elements()[0].elements().is_empty());
}

#[test]
fn traversals_visit_what_is_reachable() {
    let g = sample_graph();
    let a = node("a");
    assert_eq!(ids(&bfs(&g, &directed(), &a)), vec!["a", "b", "d", "c"]);
    assert_eq!(ids(&dfs(&g, &directed(), &a)), vec!["a", "d", "b", "c"]);
    assert_eq!(ids(&bfs(&g, &directed_reverse(), &node("c"))), vec!["c", "b", "a"]);
    assert_eq!(ids(&bfs(&g, &undirected(), &node("d"))), vec!["d", "a", "b", "c"]);
    assert_eq!(ids(&bfs(&g, &directed(), &node("e"))), vec!["e"]);
}

#[test]
fn paths_neighbours_and_connectivity() {
    let g = sample_graph();
    assert!(has_path(&g, &directed(), &node("a"), &node("c")));
    assert!(!has_path(&g, &directed(), &node("c"), &node("a")));
    assert!(has_path(&g, &undirected(), &node("c"), &node("d")));
    assert!(has_path(&g, &directed(), &node("e"), &node("e")));
    assert!(is_neighbor(&g, &directed(), &node("a"), &node("b")));
    assert!(!is_neighbor(&g, &directed(), &node("b"), &node("a")));
    assert!(is_neighbor(&g, &undirected(), &node("b"), &node("a")));
    assert!(!is_connected(&g, &undirected()));
    let joined = TestGraph::new(&["a", "b", "c"], &[("ab", "a", "b"), ("cb", "c", "b")]);
    assert!(is_connected(&joined, &undirected()));
    assert!(!is_connected(&joined, &directed()));
    let empty = TestGraph::new(&[], &[]);
    assert!(is_connected(&empty, &directed()));
}

#[test]
fn components_follow_node_order() {
    let g = sample_graph();
    let comps = connected_components(&g, &undirected());
    assert_eq!(comps.len(), 2);
    assert_eq!(ids(&comps[0]), vec!["a", "b", "d", "c"]);
    assert_eq!(ids(&comps[1]), vec!["e"]);
    let directed_comps = connected_components(&g, &directed());
    let starts: Vec<String> = directed_comps.iter().map(|c| c[0].value().id.0.clone()).collect();
    assert_eq!(starts, vec!["a", "e"]);
}

#[test]
fn weights_allow_directions() {
    let r = rel("r", "a", "b");
    assert!(TraversalWeight::<Item>::passable(&undirected(), &r, TraversalDirection::Backward));
    assert!(TraversalWeight::<Item>::passable(&directed(), &r, TraversalDirection::Forward));
    assert!(!TraversalWeight::<Item>::passable(&directed(), &r, TraversalDirection::Backward));
    assert!(!TraversalWeight::<Item>::passable(&directed_reverse(), &r, TraversalDirection::Forward));
}

#[test]
fn topological_order_and_cycles() {
    let g = sample_graph();
    let order = ids(&topological_sort(&g).unwrap());
    let pos = |x: &str| order.iter().position(|y| y == x).unwrap();
    assert_eq!(order.len(), 5);
    let mut sorted_order = order.clone();
    sorted_order.sort();
    assert_eq!(sorted_order, vec!["a", "b", "c", "d", "e"]);
    assert!(pos("a") < pos("b"));
    assert!(pos("b") < pos("c"));
    assert!(pos("a") < pos("d"));
    assert!(!has_cycle(&g));
    let cyclic = TestGraph::new(&["a", "b", "c"], &[("ab", "a", "b"), ("bc", "b", "c"), ("ca", "c", "a")]);
    assert!(topological_sort(&cyclic).is_none());
    assert!(has_cycle(&cyclic));
}

#[test]
fn framed_and_memoized_queries() {
    let framed = frame_query(|p: &Pattern<Item>| p.value().id.0 != "d", sample_graph());
    assert_eq!(ids(&framed.query_nodes()), vec!["a", "b", "c", "e"]);
    assert_eq!(ids(&framed.query_incident_rels(&node("a"))), vec!["ab"]);
    assert_eq!(ids(&framed.query_relationships()), vec!["ab", "bc"]);
    assert!(framed.query_relationship_by_id(&Symbol("ad".to_string())).is_none());
    assert!(framed.query_relationship_by_id(&Symbol("ab".to_string())).is_some());
    assert_eq!(framed.query_degree(&node("a")), 1);
    assert!(framed.query_node_by_id(&Symbol("d".to_string())).is_none());
    let memo = memoize_incident_rels(sample_graph());
    assert_eq!(ids(&memo.query_incident_rels(&node("a"))), vec!["ab", "ad"]);
    assert_eq!(memo.query_degree(&node("b")), 2);
    assert_eq!(ids(&memo.query_incident_rels(&node("zz"))), Vec::<String>::new());
}

#[test]
fn containers_by_role() {
    let classifier = canonical_classifier();
    let g = sample_graph();
    let annotations = query_annotations_of(&classifier, &g, &node("a"));
    assert!(annotations.is_empty());
    let walks = query_walks_containing(&classifier, &g, &node("a"));
    assert!(walks.is_empty());
    let container = Pattern::pattern(item("w"), vec![node("a"), node("b"), node("c")]);
    assert_eq!(ids(&query_co_members(&g, &node("b"), &container)), vec!["a", "c"]);
}

fn sample_view() -> GraphView<(), Item, TestGraph> {
    let g = sample_graph();
    let mut elements: Vec<(GraphClass<()>, Pattern<Item>)> = Vec::new();
    for n in &g.nodes {
        elements.push((GraphClass::GNode, n.clone()));
    }
    for r in &g.rels {
        elements.push((GraphClass::GRelationship, r.clone()));
    }
    GraphView { view_query: g, view_elements: elements }
}

fn with_tag(p: Pattern<Item>, tag: &str) -> Pattern<Item> {
    let mut v = p.value().clone();
    v.tags.push(tag.to_string());
    Pattern::pattern(v, p.elements().to_vec())
}

fn element_ids(v: &GraphView<(), Item, TestGraph>) -> Vec<String> {
    v.view_elements.iter().map(|(_, p)| p.value().id.0.clone()).collect()
}

#[test]
fn identity_mappers_change_nothing() {
    let before = sample_view();
    let after = map_graph(&canonical_classifier(), identity_mappers::<(), Item>(), sample_view());
    assert_eq!(after.view_elements, before.view_elements);
}

#[test]
fn mapping_keeps_roles_and_order() {
    let mapped = map_all_graph(|p: Pattern<Item>| with_tag(p, "seen"), sample_view());
    assert_eq!(mapped.view_elements.len(), 8);
    assert!(mapped.view_elements.iter().all(|(_, p)| p.value().tags == vec!["seen".to_string()]));
    assert_eq!(mapped.view_elements[5].0, GraphClass::GRelationship);
    let mappers = CategoryMappers {
        nodes: |p: Pattern<Item>| with_tag(p, "node"),
        relationships: |p: Pattern<Item>| with_tag(p, "rel"),
        walks: |p: Pattern<Item>| p,
        annotations: |p: Pattern<Item>| p,
        other: |_c: GraphClass<()>, p: Pattern<Item>| p,
    };
    let by_role = map_graph(&canonical_classifier(), mappers, sample_view());
    assert_eq!(by_role.view_elements[0].1.value().tags, vec!["node".to_string()]);
    assert_eq!(by_role.view_elements[6].1.value().tags, vec!["rel".to_string()]);
    let counted = map_with_context(
        &canonical_classifier(),
        |q: &TestGraph, p: Pattern<Item>| {
            let degree = q.query_degree(&p);
            with_tag(p, &degree.to_string())
        },
        sample_view(),
    );
    assert_eq!(counted.view_elements[0].1.value().tags, vec!["2".to_string()]);
    assert_eq!(counted.view_elements[4].1.value().tags, vec!["0".to_string()]);
}

#[test]
fn filtering_drops_or_replaces() {
    let nodes_only = filter_graph(
        &canonical_classifier(),
        |c: &GraphClass<()>, _p: &Pattern<Item>| *c == GraphClass::GNode,
        Substitution::NoSubstitution,
        sample_view(),
    );
    assert_eq!(element_ids(&nodes_only), vec!["a", "b", "c", "d", "e"]);
    let replaced = filter_graph(
        &canonical_classifier(),
        |_c: &GraphClass<()>, p: &Pattern<Item>| p.value().id.0 != "b",
        Substitution::ReplaceWith(node("z")),
        sample_view(),
    );
    assert_eq!(element_ids(&replaced), vec!["a", "z", "c", "d", "e", "ab", "bc", "ad"]);
    assert_eq!(replaced.view_elements[1].0, GraphClass::GNode);
    let removed = filter_graph(
        &canonical_classifier(),
        |_c: &GraphClass<()>, p: &Pattern<Item>| p.value().id.0 != "b",
        Substitution::RemoveContainer,
        sample_view(),
    );
    assert_eq!(element_ids(&removed).len(), 7);
}

#[test]
fn folding_counts_roles() {
    let view = sample_view();
    let (n, r) = fold_graph(
        |acc: (usize, usize), c: &GraphClass<()>, _p: &Pattern<Item>| match c {
            GraphClass::GNode => (acc.0 + 1, acc.1),
            GraphClass::GRelationship => (acc.0, acc.1 + 1),
            _ => acc,
        },
        (0, 0),
        &view,
    );
    assert_eq!((n, r), (5, 3));
}

#[test]
fn para_graph_sees_predecessor_results() {
    let view = sample_view();
    let depth = para_graph(
        |_q: &TestGraph, _n: &Pattern<Item>, preds: &[usize]| preds.iter().max().map(|m| m + 1).unwrap_or(0),
        &view,
    );
    let get = |x: &str| depth.iter().find(|(k, _)| k.0 == x).map(|(_, v)| *v).unwrap();
    assert_eq!(depth.len(), 5);
    assert_eq!(get("a"), 0);
    assert_eq!(get("b"), 1);
    assert_eq!(get("c"), 2);
    assert_eq!(get("d"), 1);
    assert_eq!(get("e"), 0);
}

#[test]
fn one_fixed_point_round() {
    let g = sample_graph();
    let nodes = g.query_nodes();
    let current: Vec<(Symbol, usize)> = nodes.iter().map(|n| (n.value().id.clone(), 1)).collect();
    let sum = |_q: &TestGraph, _n: &Pattern<Item>, preds: &[usize]| 1 + preds.iter().sum::<usize>();
    let same = |a: &usize, b: &usize| a == b;
    let (next, converged) = para_graph_fixed_round(&same, &sum, &g, &nodes, &current);
    let get = |x: &str| next.iter().find(|(k, _)| k.0 == x).map(|(_, v)| *v).unwrap();
    assert_eq!(get("a"), 1);
    assert_eq!(get("b"), 2);
    assert_eq!(get("c"), 2);
    assert!(!converged);
    let (again, _) = para_graph_fixed_round(&same, &sum, &g, &nodes, &next);
    let get2 = |x: &str| again.iter().find(|(k, _)| k.0 == x).map(|(_, v)| *v).unwrap();
    assert_eq!(get2("c"), 3);
    let (third, done) = para_graph_fixed_round(&same, &sum, &g, &nodes, &again);
    assert_eq!(third, again);
    assert!(done);
}

#[test]
fn unfolding_and_materializing_build_graphs() {
    let g: PatternGraph<(), Item> = unfold_graph(
        &canonical_classifier(),
        &ReconciliationPolicy::LastWriteWins,
        |n: usize| vec![rel(&format!("r{}", n), &format!("n{}", n), &format!("n{}", n + 1))],
        vec![0, 1, 2],
    );
    assert_eq!(g.pg_relationships.len(), 3);
    assert_eq!(g.pg_nodes.len(), 4);
    let m: PatternGraph<(), Item> = materialize(&canonical_classifier(), &ReconciliationPolicy::LastWriteWins, sample_view());
    assert_eq!(m.pg_nodes.len(), 5);
    assert_eq!(m.pg_relationships.len(), 3);
}

fn path_ids(paths: &[Vec<Pattern<Item>>]) -> Vec<Vec<String>> {
    paths.iter().map(|p| ids(p)).collect()
}

#[test]
fn all_simple_paths_are_listed() {
    let g = sample_graph();
    assert_eq!(path_ids(&all_paths(&g, &directed(), &node("a"), &node("c"))), vec![vec!["a", "b", "c"]]);
    assert_eq!(path_ids(&all_paths(&g, &undirected(), &node("d"), &node("c"))), vec![vec!["d", "a", "b", "c"]]);
    assert!(all_paths(&g, &directed(), &node("c"), &node("a")).is_empty());
    assert_eq!(path_ids(&all_paths(&g, &directed(), &node("e"), &node("e"))), vec![vec!["e"]]);
    let diamond = TestGraph::new(
        &["a", "b", "c", "d"],
        &[("ab", "a", "b"), ("ac", "a", "c"), ("bd", "b", "d"), ("cd", "c", "d")],
    );
    assert_eq!(
        path_ids(&all_paths(&diamond, &directed(), &node("a"), &node("d"))),
        vec![vec!["a", "b", "d"], vec!["a", "c", "d"]]
    );
    let parallel = TestGraph::new(&["a", "b"], &[("r1", "a", "b"), ("r2", "a", "b")]);
    assert_eq!(path_ids(&all_paths(&parallel, &directed(), &node("a"), &node("b"))), vec![vec!["a", "b"], vec!["a", "b"]]);
}

#[test]
fn graph_elements_are_listed_by_role() {
    let classifier = canonical_classifier();
    let g: PatternGraph<(), Item> = from_patterns(
        &classifier,
        vec![rel("r", "a", "b"), Pattern::pattern(item("note"), vec![node("a")])],
    );
    let elements = view_elements_from_graph(&classifier, &g);
    let roles: Vec<GraphClass<()>> = elements.iter().map(|(c, _)| c.clone()).collect();
    assert_eq!(roles, vec![GraphClass::GNode, GraphClass::GNode, GraphClass::GRelationship, GraphClass::GAnnotation]);
    let names: Vec<String> = elements.iter().map(|(_, p)| p.value().id.0.clone()).collect();
    assert_eq!(&names[2..], &["r".to_string(), "note".to_string()]);
}

fn sym(s: &str) -> Symbol {
    Symbol(s.to_string())
}

#[test]
fn standard_graph_builds_by_identity() {
    let mut g: StandardGraph<Item> = StandardGraph::new();
    assert!(g.is_empty());
    g.add_node(tagged("alice", "Person")).add_node(tagged("bob", "Person"));
    g.add_relationship(tagged("r1", "KNOWS"), &sym("alice"), &sym("bob"));
    assert_eq!(g.node_count(), 2);
    assert_eq!(g.relationship_count(), 1);
    assert!(!g.is_empty());
    g.add_relationship(item("r2"), &sym("bob"), &sym("carol"));
    assert_eq!(g.node_count(), 3);
    let carol = g.node(&sym("carol")).unwrap();
    assert!(carol.elements().is_empty());
    assert!(carol.value().tags.is_empty());
    assert_eq!(g.source(&sym("r1")).unwrap().value().id, sym("alice"));
    assert_eq!(g.target(&sym("r1")).unwrap().value().id, sym("bob"));
    assert!(g.source(&sym("nope")).is_none());
    assert_eq!(ids(&g.neighbors(&sym("bob")).into_iter().cloned().collect::<Vec<_>>()), vec!["alice", "carol"]);
    assert_eq!(g.degree(&sym("bob")), 2);
    assert_eq!(g.degree(&sym("alice")), 1);
    g.add_node(tagged("alice", "Admin"));
    assert_eq!(g.node(&sym("alice")).unwrap().value().tags, vec!["Admin".to_string()]);
    assert_eq!(g.node_count(), 3);
}

#[test]
fn standard_graph_walks_annotations_and_patterns() {
    let mut g: StandardGraph<Item> = StandardGraph::default();
    g.add_relationship(item("r1"), &sym("a"), &sym("b"));
    g.add_walk(item("w"), &[sym("r1"), sym("missing")]);
    let w = g.walk(&sym("w")).unwrap();
    assert_eq!(ids(w.elements()), vec!["r1", "missing"]);
    assert_eq!(w.elements()[0].elements().len(), 2);
    assert!(w.elements()[1].elements().is_empty());
    assert_eq!(g.relationship_count(), 1);
    g.add_annotation(item("note"), &sym("r1"));
    let note = g.annotation(&sym("note")).unwrap();
    assert_eq!(note.elements()[0].value().id, sym("r1"));
    assert_eq!(note.elements()[0].elements().len(), 2);
    g.add_annotation(item("orphan"), &sym("ghost"));
    assert!(g.annotation(&sym("orphan")).unwrap().elements()[0].elements().is_empty());
    assert_eq!(g.annotation_count(), 2);
    assert_eq!(g.walk_count(), 1);
    assert!(!g.has_conflicts());
    g.add_pattern(node("c"));
    assert_eq!(g.node_count(), 3);
    g.add_patterns(vec![node("d"), rel("r9", "c", "d")]);
    assert_eq!(g.node_count(), 4);
    assert_eq!(g.relationship_count(), 2);
    let h: StandardGraph<Item> = StandardGraph::from_patterns(vec![rel("x", "p", "q")]);
    assert_eq!(h.node_count(), 2);
    assert_eq!(h.relationships().len(), 1);
    let inner = h.into_pattern_graph();
    assert_eq!(inner.pg_relationships.len(), 1);
}

#[test]
fn fixed_point_repeats_rounds_until_converged() {
    let view = sample_view();
    let sum = |_q: &TestGraph, _n: &Pattern<Item>, preds: &[usize]| 1 + preds.iter().sum::<usize>();
    let result = para_graph_fixed(|a: &usize, b: &usize| a == b, sum, 1usize, &view);
    let get = |x: &str| result.iter().find(|(k, _)| k.0 == x).map(|(_, v)| *v).unwrap();
    assert_eq!(result.len(), 5);
    assert_eq!(get("a"), 1);
    assert_eq!(get("b"), 2);
    assert_eq!(get("c"), 3);
    assert_eq!(get("d"), 2);
    assert_eq!(get("e"), 1);
}
