use vstd::prelude::*;

use crate::graph::graph_classifier::GraphValue;
use crate::pattern_graph::{copy_of, keyed, keys_distinct, position_of, trees_of};
use crate::pattern::{lemma_pattern_view, patterns_forest, Pattern};
use crate::reconcile::exact_clone;
use crate::subject::Symbol;
use crate::tree::Tree;

verus! {

/// The direction in which a relationship is traversed.
#[derive(Debug, Clone, Copy, PartialEq, Eq, Structural)]
pub enum TraversalDirection {
    Forward,
    Backward,
}

/// Which relationships a traversal may cross, and in which direction. A cost
/// function of relationship and direction allows a crossing exactly when its cost
/// is finite; the traversals here only ask whether it is.
/// Each specification function has a default body: one fixed value, the same for
/// every argument. An implementation that keeps a default (as one written outside
/// Verus must) meets the methods' contracts only where its results are that value, so
/// what is proved of the library's functions carries over to it no further than that.
pub trait TraversalWeight<V> {
    /// Whether `rel` may be crossed in direction `dir`.
    closed spec fn passes(&self, rel: Tree<V>, dir: TraversalDirection) -> bool {
        vstd::pervasive::arbitrary()
    }

    /// Whether `rel` may be crossed in direction `dir`.
    fn passable(&self, rel: &Pattern<V>, dir: TraversalDirection) -> (r: bool)
        ensures
            r == self.passes(rel@, dir),
    ;
}

/// A weight that allows or blocks each direction, whatever the relationship (cost
/// one where allowed, infinite where blocked).
#[derive(Debug, Clone, Copy, PartialEq, Eq, Structural)]
pub struct DirectionWeight {
    pub forward: bool,
    pub backward: bool,
}

impl<V> TraversalWeight<V> for DirectionWeight {
    open spec fn passes(&self, rel: Tree<V>, dir: TraversalDirection) -> bool {
        match dir {
            TraversalDirection::Forward => self.forward,
            TraversalDirection::Backward => self.backward,
        }
    }

    fn passable(&self, rel: &Pattern<V>, dir: TraversalDirection) -> (r: bool) {
        match dir {
            TraversalDirection::Forward => self.forward,
            TraversalDirection::Backward => self.backward,
        }
    }
}

/// Every relationship may be crossed both ways.
pub fn undirected() -> (r: DirectionWeight)
    ensures
        r.forward && r.backward,
{
    DirectionWeight { forward: true, backward: true }
}

/// Relationships may be crossed from source to target only.
pub fn directed() -> (r: DirectionWeight)
    ensures
        r.forward && !r.backward,
{
    DirectionWeight { forward: true, backward: false }
}

/// Relationships may be crossed from target to source only.
pub fn directed_reverse() -> (r: DirectionWeight)
    ensures
        !r.forward && r.backward,
{
    DirectionWeight { forward: false, backward: true }
}

/// The tree of an optional pattern.
pub open spec fn option_tree<V>(p: Option<Pattern<V>>) -> Option<Tree<V>> {
    match p {
        Some(q) => Some(q@),
        None => None,
    }
}

/// The query interface over a graph, on which the graph algorithms run. Each query
/// gives, where cloning values is exact, what its specification function says.
/// Each specification function has a default body: one fixed value, the same for
/// every argument. An implementation that keeps a default (as one written outside
/// Verus must) meets the methods' contracts only where its results are that value, so
/// what is proved of the library's functions carries over to it no further than that.
pub trait GraphQuery<V: Clone> {
    /// All nodes.
    closed spec fn nodes_spec(&self) -> Seq<Tree<V>> {
        vstd::pervasive::arbitrary()
    }

    /// All relationships.
    closed spec fn relationships_spec(&self) -> Seq<Tree<V>> {
        vstd::pervasive::arbitrary()
    }

    /// The relationships incident to node `n`.
    closed spec fn incident_spec(&self, n: Tree<V>) -> Seq<Tree<V>> {
        vstd::pervasive::arbitrary()
    }

    /// The source node of relationship `r`.
    closed spec fn source_spec(&self, r: Tree<V>) -> Option<Tree<V>> {
        vstd::pervasive::arbitrary()
    }

    /// The target node of relationship `r`.
    closed spec fn target_spec(&self, r: Tree<V>) -> Option<Tree<V>> {
        vstd::pervasive::arbitrary()
    }

    /// The number of relationships incident to node `n`.
    closed spec fn degree_spec(&self, n: Tree<V>) -> nat {
        vstd::pervasive::arbitrary()
    }

    /// The node with identity `id`.
    closed spec fn node_by_id_spec(&self, id: Seq<char>) -> Option<Tree<V>> {
        vstd::pervasive::arbitrary()
    }

    /// The relationship with identity `id`.
    closed spec fn relationship_by_id_spec(&self, id: Seq<char>) -> Option<Tree<V>> {
        vstd::pervasive::arbitrary()
    }

    /// The patterns that directly contain `e`.
    closed spec fn containers_spec(&self, e: Tree<V>) -> Seq<Tree<V>> {
        vstd::pervasive::arbitrary()
    }

    fn query_nodes(&self) -> (r: Vec<Pattern<V>>)
        ensures
            exact_clone::<V>() ==> patterns_forest(r@) == self.nodes_spec(),
    ;

    fn query_relationships(&self) -> (r: Vec<Pattern<V>>)
        ensures
            exact_clone::<V>() ==> patterns_forest(r@) == self.relationships_spec(),
    ;

    fn query_incident_rels(&self, node: &Pattern<V>) -> (r: Vec<Pattern<V>>)
        ensures
            exact_clone::<V>() ==> patterns_forest(r@) == self.incident_spec(node@),
    ;

    fn query_source(&self, rel: &Pattern<V>) -> (r: Option<Pattern<V>>)
        ensures
            exact_clone::<V>() ==> option_tree(r) == self.source_spec(rel@),
    ;

    fn query_target(&self, rel: &Pattern<V>) -> (r: Option<Pattern<V>>)
        ensures
            exact_clone::<V>() ==> option_tree(r) == self.target_spec(rel@),
    ;

    fn query_degree(&self, node: &Pattern<V>) -> (r: usize)
        ensures
            exact_clone::<V>() ==> r == self.degree_spec(node@),
    ;

    fn query_node_by_id(&self, id: &Symbol) -> (r: Option<Pattern<V>>)
        ensures
            exact_clone::<V>() ==> option_tree(r) == self.node_by_id_spec(id@),
    ;

    fn query_relationship_by_id(&self, id: &Symbol) -> (r: Option<Pattern<V>>)
        ensures
            exact_clone::<V>() ==> option_tree(r) == self.relationship_by_id_spec(id@),
    ;

    fn query_containers(&self, element: &Pattern<V>) -> (r: Vec<Pattern<V>>)
        ensures
            exact_clone::<V>() ==> patterns_forest(r@) == self.containers_spec(element@),
    ;
}

// ---------------------------------------------------------------------------
// Framing
// ---------------------------------------------------------------------------

/// Both ends of `r` exist in `q` and are kept.
pub open spec fn ends_kept<V: Clone, Q: GraphQuery<V>>(q: Q, keep: spec_fn(Tree<V>) -> bool, r: Tree<V>) -> bool {
    &&& q.source_spec(r) is Some
    &&& keep(q.source_spec(r)->Some_0)
    &&& q.target_spec(r) is Some
    &&& keep(q.target_spec(r)->Some_0)
}

/// `accepts` answers as `keep` does, on every pattern.
pub open spec fn decided_by<V, F: Fn(&Pattern<V>) -> bool>(accepts: F, keep: spec_fn(Tree<V>) -> bool) -> bool {
    &&& forall|p: &Pattern<V>| #[trigger] accepts.requires((p,))
    &&& forall|p: &Pattern<V>, b: bool| #[trigger] accepts.ensures((p,), b) ==> b == keep(p@)
}

/// A query restricted to the patterns that a predicate keeps: a relationship is kept
/// only with both its ends, and counts as incident only when both its ends are kept.
#[verifier::reject_recursive_types(V)]
pub struct FramedQuery<Q, F: Fn(&Pattern<V>) -> bool, V> {
    base: Q,
    accepts: F,
    keep: Ghost<spec_fn(Tree<V>) -> bool>,
}

impl<Q, F: Fn(&Pattern<V>) -> bool, V> FramedQuery<Q, F, V> {
    #[verifier::type_invariant]
    spec fn framed_inv(self) -> bool {
        decided_by(self.accepts, self.keep@)
    }

    /// The query that is framed.
    pub closed spec fn base_query(self) -> Q {
        self.base
    }

    /// What the frame keeps.
    pub closed spec fn kept(self) -> spec_fn(Tree<V>) -> bool {
        self.keep@
    }
}

/// The patterns of `v` that `accepts` keeps, in order.
fn kept_patterns<V, F: Fn(&Pattern<V>) -> bool>(v: Vec<Pattern<V>>, accepts: &F, Ghost(keep): Ghost<spec_fn(Tree<V>) -> bool>) -> (r: Vec<Pattern<V>>)
    requires
        decided_by(*accepts, keep),
    ensures
        patterns_forest(r@) == patterns_forest(v@).filter(keep),
{
    let ghost s = patterns_forest(v@);
    let mut pending = crate::pattern::combine::reversed(v);
    let n = pending.len();
    let mut r: Vec<Pattern<V>> = Vec::new();
    proof {
        assert(s.take(0) =~= Seq::<Tree<V>>::empty());
        assert(patterns_forest(r@) =~= s.take(0).filter(keep)) by {
            reveal(Seq::filter);
        }
    }
    while pending.len() > 0
        invariant
            n == s.len(),
            pending.len() <= n,
            decided_by(*accepts, keep),
            forall|k: int| 0 <= k < pending.len() ==> #[trigger] pending@[k]@ == s[n - 1 - k],
            patterns_forest(r@) == s.take(n - pending.len()).filter(keep),
        decreases pending.len(),
    {
        let j: Ghost<int> = Ghost(n - pending.len());
        let p = pending.pop().unwrap();
        proof {
            assert(p@ == s[j@]);
            crate::tree::lemma_take_step(s, j@);
            s.take(j@).lemma_filter_push(s[j@], keep);
        }
        let b = accepts(&p);
        if b {
            let ghost before = r@;
            r.push(p);
            proof {
                assert(patterns_forest(r@) =~= patterns_forest(before).push(p@));
            }
        }
    }
    proof {
        assert(s.take(n as int) =~= s);
    }
    r
}

/// `p` exists and is kept.
fn kept_option<V, F: Fn(&Pattern<V>) -> bool>(p: &Option<Pattern<V>>, accepts: &F, Ghost(keep): Ghost<spec_fn(Tree<V>) -> bool>) -> (r: bool)
    requires
        decided_by(*accepts, keep),
    ensures
        r == (option_tree(*p) is Some && keep(option_tree(*p)->Some_0)),
{
    match p {
        Some(q) => accepts(q),
        None => false,
    }
}

/// The incident relationships of `node` in `base` whose ends are both kept.
fn kept_incident<V: Clone, Q: GraphQuery<V>, F: Fn(&Pattern<V>) -> bool>(
    base: &Q,
    accepts: &F,
    Ghost(keep): Ghost<spec_fn(Tree<V>) -> bool>,
    node: &Pattern<V>,
) -> (r: Vec<Pattern<V>>)
    requires
        decided_by(*accepts, keep),
    ensures
        exact_clone::<V>() ==> patterns_forest(r@) == base.incident_spec(node@).filter(
            |t: Tree<V>| ends_kept(*base, keep, t),
        ),
{
    let rels = base.query_incident_rels(node);
    let ghost s = patterns_forest(rels@);
    let ghost pred = |t: Tree<V>| ends_kept(*base, keep, t);
    let mut r: Vec<Pattern<V>> = Vec::new();
    let mut i: usize = 0;
    proof {
        assert(s.take(0) =~= Seq::<Tree<V>>::empty());
        assert(patterns_forest(r@) =~= s.take(0).filter(pred)) by {
            reveal(Seq::filter);
        }
    }
    while i < rels.len()
        invariant
            i <= rels.len(),
            s == patterns_forest(rels@),
            pred == (|t: Tree<V>| ends_kept(*base, keep, t)),
            decided_by(*accepts, keep),
            exact_clone::<V>() ==> patterns_forest(r@) == s.take(i as int).filter(pred),
        decreases rels.len() - i,
    {
        let rel = &rels[i];
        let src = base.query_source(rel);
        let tgt = base.query_target(rel);
        let src_ok = kept_option(&src, accepts, Ghost(keep));
        let tgt_ok = kept_option(&tgt, accepts, Ghost(keep));
        proof {
            assert(s[i as int] == rel@);
            crate::tree::lemma_take_step(s, i as int);
            s.take(i as int).lemma_filter_push(s[i as int], pred);
            if exact_clone::<V>() {
                assert(pred(s[i as int]) == (src_ok && tgt_ok));
            }
        }
        if src_ok && tgt_ok {
            let ghost before = r@;
            r.push(rel.clone());
            proof {
                if exact_clone::<V>() {
                    crate::reconcile::lemma_cloned_tree_exact(rel@, r@[before.len() as int]@);
                    assert(patterns_forest(r@) =~= patterns_forest(before).push(rel@));
                }
            }
        }
        i = i + 1;
    }
    proof {
        assert(s.take(rels.len() as int) =~= s);
    }
    r
}

/// A relationship the frame keeps: it is kept itself, and so are both its ends.
pub open spec fn rel_kept<V: Clone, Q: GraphQuery<V>>(q: Q, keep: spec_fn(Tree<V>) -> bool, r: Tree<V>) -> bool {
    keep(r) && ends_kept(q, keep, r)
}

/// Whether `rel` is kept, with both its ends in `base`.
fn kept_relationship<V: Clone, Q: GraphQuery<V>, F: Fn(&Pattern<V>) -> bool>(
    base: &Q,
    accepts: &F,
    Ghost(keep): Ghost<spec_fn(Tree<V>) -> bool>,
    rel: &Pattern<V>,
) -> (r: bool)
    requires
        decided_by(*accepts, keep),
    ensures
        exact_clone::<V>() ==> r == rel_kept(*base, keep, rel@),
{
    if !accepts(rel) {
        return false;
    }
    let src = base.query_source(rel);
    let tgt = base.query_target(rel);
    kept_option(&src, accepts, Ghost(keep)) && kept_option(&tgt, accepts, Ghost(keep))
}

/// The relationships of `base` that are kept with both their ends.
fn kept_relationships<V: Clone, Q: GraphQuery<V>, F: Fn(&Pattern<V>) -> bool>(
    base: &Q,
    accepts: &F,
    Ghost(keep): Ghost<spec_fn(Tree<V>) -> bool>,
) -> (r: Vec<Pattern<V>>)
    requires
        decided_by(*accepts, keep),
    ensures
        exact_clone::<V>() ==> patterns_forest(r@) == base.relationships_spec().filter(
            |t: Tree<V>| rel_kept(*base, keep, t),
        ),
{
    let rels = base.query_relationships();
    let ghost s = patterns_forest(rels@);
    let ghost pred = |t: Tree<V>| rel_kept(*base, keep, t);
    let mut r: Vec<Pattern<V>> = Vec::new();
    let mut i: usize = 0;
    proof {
        assert(s.take(0) =~= Seq::<Tree<V>>::empty());
        assert(patterns_forest(r@) =~= s.take(0).filter(pred)) by {
            reveal(Seq::filter);
        }
    }
    while i < rels.len()
        invariant
            i <= rels.len(),
            s == patterns_forest(rels@),
            exact_clone::<V>() ==> s == base.relationships_spec(),
            pred == (|t: Tree<V>| rel_kept(*base, keep, t)),
            decided_by(*accepts, keep),
            exact_clone::<V>() ==> patterns_forest(r@) == s.take(i as int).filter(pred),
        decreases rels.len() - i,
    {
        let rel = &rels[i];
        let ok = kept_relationship(base, accepts, Ghost(keep), rel);
        proof {
            assert(s[i as int] == rel@);
            crate::tree::lemma_take_step(s, i as int);
            s.take(i as int).lemma_filter_push(s[i as int], pred);
        }
        if ok {
            let ghost before = r@;
            r.push(rel.clone());
            proof {
                if exact_clone::<V>() {
                    crate::reconcile::lemma_cloned_tree_exact(rel@, r@[before.len() as int]@);
                    assert(patterns_forest(r@) =~= patterns_forest(before).push(rel@));
                }
            }
        }
        i = i + 1;
    }
    proof {
        assert(s.take(rels.len() as int) =~= s);
    }
    r
}

impl<V: Clone, Q: GraphQuery<V>, F: Fn(&Pattern<V>) -> bool> GraphQuery<V> for FramedQuery<Q, F, V> {
    open spec fn nodes_spec(&self) -> Seq<Tree<V>> {
        self.base_query().nodes_spec().filter(self.kept())
    }

    open spec fn relationships_spec(&self) -> Seq<Tree<V>> {
        self.base_query().relationships_spec().filter(|t: Tree<V>| rel_kept(self.base_query(), self.kept(), t))
    }

    open spec fn incident_spec(&self, n: Tree<V>) -> Seq<Tree<V>> {
        self.base_query().incident_spec(n).filter(|t: Tree<V>| ends_kept(self.base_query(), self.kept(), t))
    }

    open spec fn source_spec(&self, r: Tree<V>) -> Option<Tree<V>> {
        self.base_query().source_spec(r)
    }

    open spec fn target_spec(&self, r: Tree<V>) -> Option<Tree<V>> {
        self.base_query().target_spec(r)
    }

    open spec fn degree_spec(&self, n: Tree<V>) -> nat {
        self.incident_spec(n).len()
    }

    open spec fn node_by_id_spec(&self, id: Seq<char>) -> Option<Tree<V>> {
        match self.base_query().node_by_id_spec(id) {
            Some(n) => if (self.kept())(n) { Some(n) } else { None },
            None => None,
        }
    }

    open spec fn relationship_by_id_spec(&self, id: Seq<char>) -> Option<Tree<V>> {
        match self.base_query().relationship_by_id_spec(id) {
            Some(n) => if rel_kept(self.base_query(), self.kept(), n) { Some(n) } else { None },
            None => None,
        }
    }

    open spec fn containers_spec(&self, e: Tree<V>) -> Seq<Tree<V>> {
        self.base_query().containers_spec(e).filter(self.kept())
    }

    fn query_nodes(&self) -> (r: Vec<Pattern<V>>) {
        proof {
            use_type_invariant(self);
        }
        kept_patterns(self.base.query_nodes(), &self.accepts, Ghost(self.keep@))
    }

    fn query_relationships(&self) -> (r: Vec<Pattern<V>>) {
        proof {
            use_type_invariant(self);
        }
        kept_relationships(&self.base, &self.accepts, Ghost(self.keep@))
    }

    fn query_incident_rels(&self, node: &Pattern<V>) -> (r: Vec<Pattern<V>>) {
        proof {
            use_type_invariant(self);
        }
        kept_incident(&self.base, &self.accepts, Ghost(self.keep@), node)
    }

    fn query_source(&self, rel: &Pattern<V>) -> (r: Option<Pattern<V>>) {
        self.base.query_source(rel)
    }

    fn query_target(&self, rel: &Pattern<V>) -> (r: Option<Pattern<V>>) {
        self.base.query_target(rel)
    }

    fn query_degree(&self, node: &Pattern<V>) -> (r: usize) {
        proof {
            use_type_invariant(self);
        }
        let rels = kept_incident(&self.base, &self.accepts, Ghost(self.keep@), node);
        rels.len()
    }

    fn query_node_by_id(&self, id: &Symbol) -> (r: Option<Pattern<V>>) {
        proof {
            use_type_invariant(self);
        }
        let found = self.base.query_node_by_id(id);
        if kept_option(&found, &self.accepts, Ghost(self.keep@)) {
            found
        } else {
            None
        }
    }

    fn query_relationship_by_id(&self, id: &Symbol) -> (r: Option<Pattern<V>>) {
        proof {
            use_type_invariant(self);
        }
        let found = self.base.query_relationship_by_id(id);
        let kept = match &found {
            Some(rel) => kept_relationship(&self.base, &self.accepts, Ghost(self.keep@), rel),
            None => false,
        };
        if kept {
            found
        } else {
            None
        }
    }

    fn query_containers(&self, element: &Pattern<V>) -> (r: Vec<Pattern<V>>) {
        proof {
            use_type_invariant(self);
        }
        kept_patterns(self.base.query_containers(element), &self.accepts, Ghost(self.keep@))
    }
}

/// `base` restricted to the patterns that `accepts` accepts: nodes, lookups and
/// containers are filtered, and a relationship is kept (listed, found by identity, or
/// incident) only when it and both its ends are accepted, so that the structural
/// invariants of `base` hold of the result.
pub fn frame_query<V: Clone, Q: GraphQuery<V>, F: Fn(&Pattern<V>) -> bool>(accepts: F, base: Q) -> (r: FramedQuery<Q, F, V>)
    requires
        forall|p: &Pattern<V>| #[trigger] accepts.requires((p,)),
        exists|keep: spec_fn(Tree<V>) -> bool| decided_by(accepts, keep),
    ensures
        r.base_query() == base,
        decided_by(accepts, r.kept()),
{
    let ghost keep = choose|keep: spec_fn(Tree<V>) -> bool| decided_by(accepts, keep);
    FramedQuery { base, accepts, keep: Ghost(keep) }
}

/// The structural invariants of a query: the ends of a relationship are nodes; an
/// incident relationship has the node as source or target; a node's degree counts its
/// incident relationships; nodes and relationships are found by their identities; and
/// containers directly contain what they are asked about.
pub open spec fn query_invariants<V: GraphValue + Clone, Q: GraphQuery<V>>(q: Q) -> bool {
    &&& forall|r: Tree<V>|
        #[trigger] q.relationships_spec().contains(r) && q.source_spec(r) is Some ==> q.nodes_spec().contains(
            q.source_spec(r)->Some_0,
        )
    &&& forall|r: Tree<V>|
        #[trigger] q.relationships_spec().contains(r) && q.target_spec(r) is Some ==> q.nodes_spec().contains(
            q.target_spec(r)->Some_0,
        )
    &&& forall|n: Tree<V>, r: Tree<V>|
        #[trigger] q.incident_spec(n).contains(r) ==> q.source_spec(r) == Some(n) || q.target_spec(r) == Some(n)
    &&& forall|n: Tree<V>| #[trigger] q.nodes_spec().contains(n) ==> q.degree_spec(n) == q.incident_spec(n).len()
    &&& forall|n: Tree<V>|
        #[trigger] q.nodes_spec().contains(n) ==> q.node_by_id_spec(n.value.identity_text()) == Some(n)
    &&& forall|r: Tree<V>|
        #[trigger] q.relationships_spec().contains(r) ==> q.relationship_by_id_spec(r.value.identity_text())
            == Some(r)
    &&& forall|e: Tree<V>, c: Tree<V>| #[trigger] q.containers_spec(e).contains(c) ==> c.children.contains(e)
}

/// What a filtered sequence holds: the elements of the sequence that the predicate keeps.
proof fn lemma_filter_member<A>(s: Seq<A>, p: spec_fn(A) -> bool, x: A)
    ensures
        s.filter(p).contains(x) <==> s.contains(x) && p(x),
{
    if s.filter(p).contains(x) {
        s.lemma_filter_contains_rev(p, x);
        let i = choose|i: int| 0 <= i < s.filter(p).len() && s.filter(p)[i] == x;
        s.lemma_filter_pred(p, i);
    }
    if s.contains(x) && p(x) {
        let i = choose|i: int| 0 <= i < s.len() && s[i] == x;
        s.lemma_filter_contains(p, i);
    }
}

/// Framing keeps the structural invariants: where `base` keeps them, so does every
/// query framed from it.
pub proof fn lemma_frame_keeps_invariants<V: GraphValue + Clone, Q: GraphQuery<V>, F: Fn(&Pattern<V>) -> bool>(
    f: FramedQuery<Q, F, V>,
)
    requires
        query_invariants(f.base_query()),
    ensures
        query_invariants(f),
{
    let b = f.base_query();
    let keep = f.kept();
    let rk = |t: Tree<V>| rel_kept(b, keep, t);
    assert forall|r: Tree<V>| #[trigger] f.relationships_spec().contains(r) implies b.relationships_spec().contains(r)
        && rel_kept(b, keep, r) by {
        lemma_filter_member(b.relationships_spec(), rk, r);
    }
    assert forall|n: Tree<V>| f.nodes_spec().contains(n) <==> b.nodes_spec().contains(n) && keep(n) by {
        lemma_filter_member(b.nodes_spec(), keep, n);
    }
    assert forall|n: Tree<V>, r: Tree<V>| #[trigger] f.incident_spec(n).contains(r) implies b.incident_spec(n).contains(r) by {
        lemma_filter_member(b.incident_spec(n), |t: Tree<V>| ends_kept(b, keep, t), r);
    }
    assert forall|e: Tree<V>, c: Tree<V>| #[trigger] f.containers_spec(e).contains(c) implies b.containers_spec(e).contains(c) by {
        lemma_filter_member(b.containers_spec(e), keep, c);
    }
    assert forall|r: Tree<V>|
        #[trigger] f.relationships_spec().contains(r) && f.source_spec(r) is Some implies f.nodes_spec().contains(
            f.source_spec(r)->Some_0,
        ) by {
        assert(b.nodes_spec().contains(b.source_spec(r)->Some_0));
    }
    assert forall|r: Tree<V>|
        #[trigger] f.relationships_spec().contains(r) && f.target_spec(r) is Some implies f.nodes_spec().contains(
            f.target_spec(r)->Some_0,
        ) by {
        assert(b.nodes_spec().contains(b.target_spec(r)->Some_0));
    }
    assert forall|n: Tree<V>|
        #[trigger] f.nodes_spec().contains(n) implies f.node_by_id_spec(n.value.identity_text()) == Some(n) by {
        assert(b.nodes_spec().contains(n));
    }
    assert forall|r: Tree<V>|
        #[trigger] f.relationships_spec().contains(r) implies f.relationship_by_id_spec(r.value.identity_text())
            == Some(r) by {
        assert(b.relationships_spec().contains(r));
    }
}

// ---------------------------------------------------------------------------
// Memoising incident relationships
// ---------------------------------------------------------------------------

/// The last of `nodes` with identity `x`.
pub open spec fn last_with_id<V: GraphValue>(nodes: Seq<Tree<V>>, x: Seq<char>) -> Option<Tree<V>>
    decreases nodes.len(),
{
    if nodes.len() == 0 {
        None
    } else if nodes.last().value.identity_text() == x {
        Some(nodes.last())
    } else {
        last_with_id(nodes.drop_last(), x)
    }
}

/// The incident relationships of each identity among `nodes` (of the last node with
/// that identity), as `q` gives them.
pub open spec fn incident_by_id<V: GraphValue + Clone, Q: GraphQuery<V>>(q: Q, nodes: Seq<Tree<V>>) -> Map<
    Seq<char>,
    Seq<Tree<V>>,
> {
    Map::new(
        |x: Seq<char>| last_with_id(nodes, x) is Some,
        |x: Seq<char>| q.incident_spec(last_with_id(nodes, x)->Some_0),
    )
}

/// A query whose incident relationships (and degrees) were computed once for all nodes.
pub struct MemoizedQuery<Q: GraphQuery<V>, V: GraphValue + Clone> {
    base: Q,
    cache: Vec<(Symbol, Vec<Pattern<V>>)>,
}

impl<Q: GraphQuery<V>, V: GraphValue + Clone> MemoizedQuery<Q, V> {
    #[verifier::type_invariant]
    spec fn memo_inv(self) -> bool {
        &&& keys_distinct(self.cache@)
        &&& exact_clone::<V>() ==> keyed(self.cache@, trees_of()) == incident_by_id(
            self.base,
            self.base.nodes_spec(),
        )
    }

    /// The query that is memoised.
    pub closed spec fn base_query(self) -> Q {
        self.base
    }

    /// The cached relationships of `node`, or none.
    fn cached(&self, node: &Pattern<V>) -> (r: Vec<Pattern<V>>)
        ensures
            exact_clone::<V>() ==> patterns_forest(r@) == match last_with_id(
                self.base_query().nodes_spec(),
                node@.value.identity_text(),
            ) {
                Some(m) => self.base_query().incident_spec(m),
                None => Seq::empty(),
            },
    {
        proof {
            use_type_invariant(self);
            lemma_pattern_view(*node);
        }
        let id = node.value.identify();
        match position_of(&self.cache, id) {
            Some(k) => {
                let stored = &self.cache[k].1;
                let mut out: Vec<Pattern<V>> = Vec::new();
                let mut i: usize = 0;
                while i < stored.len()
                    invariant
                        i <= stored.len(),
                        exact_clone::<V>() ==> patterns_forest(out@) == patterns_forest(stored@).take(i as int),
                    decreases stored.len() - i,
                {
                    let c = copy_of(&stored[i]);
                    let ghost before = out@;
                    out.push(c);
                    proof {
                        if exact_clone::<V>() {
                            assert(patterns_forest(out@) =~= patterns_forest(stored@).take(i + 1));
                        }
                    }
                    i = i + 1;
                }
                proof {
                    if exact_clone::<V>() {
                        crate::pattern_graph::lemma_keyed_at(self.cache@, trees_of(), k as int);
                        assert(patterns_forest(stored@).take(stored.len() as int) =~= patterns_forest(stored@));
                    }
                }
                out
            },
            None => {
                let out: Vec<Pattern<V>> = Vec::new();
                proof {
                    if exact_clone::<V>() {
                        assert(!keyed(self.cache@, trees_of()).contains_key(id@));
                        assert(patterns_forest(out@) =~= Seq::<Tree<V>>::empty());
                    }
                }
                out
            },
        }
    }
}

impl<Q: GraphQuery<V>, V: GraphValue + Clone> GraphQuery<V> for MemoizedQuery<Q, V> {
    open spec fn nodes_spec(&self) -> Seq<Tree<V>> {
        self.base_query().nodes_spec()
    }

    open spec fn relationships_spec(&self) -> Seq<Tree<V>> {
        self.base_query().relationships_spec()
    }

    open spec fn incident_spec(&self, n: Tree<V>) -> Seq<Tree<V>> {
        match last_with_id(self.base_query().nodes_spec(), n.value.identity_text()) {
            Some(m) => self.base_query().incident_spec(m),
            None => Seq::empty(),
        }
    }

    open spec fn source_spec(&self, r: Tree<V>) -> Option<Tree<V>> {
        self.base_query().source_spec(r)
    }

    open spec fn target_spec(&self, r: Tree<V>) -> Option<Tree<V>> {
        self.base_query().target_spec(r)
    }

    open spec fn degree_spec(&self, n: Tree<V>) -> nat {
        self.incident_spec(n).len()
    }

    open spec fn node_by_id_spec(&self, id: Seq<char>) -> Option<Tree<V>> {
        self.base_query().node_by_id_spec(id)
    }

    open spec fn relationship_by_id_spec(&self, id: Seq<char>) -> Option<Tree<V>> {
        self.base_query().relationship_by_id_spec(id)
    }

    open spec fn containers_spec(&self, e: Tree<V>) -> Seq<Tree<V>> {
        self.base_query().containers_spec(e)
    }

    fn query_nodes(&self) -> (r: Vec<Pattern<V>>) {
        self.base.query_nodes()
    }

    fn query_relationships(&self) -> (r: Vec<Pattern<V>>) {
        self.base.query_relationships()
    }

    fn query_incident_rels(&self, node: &Pattern<V>) -> (r: Vec<Pattern<V>>) {
        self.cached(node)
    }

    fn query_source(&self, rel: &Pattern<V>) -> (r: Option<Pattern<V>>) {
        self.base.query_source(rel)
    }

    fn query_target(&self, rel: &Pattern<V>) -> (r: Option<Pattern<V>>) {
        self.base.query_target(rel)
    }

    fn query_degree(&self, node: &Pattern<V>) -> (r: usize) {
        let rels = self.cached(node);
        rels.len()
    }

    fn query_node_by_id(&self, id: &Symbol) -> (r: Option<Pattern<V>>) {
        self.base.query_node_by_id(id)
    }

    fn query_relationship_by_id(&self, id: &Symbol) -> (r: Option<Pattern<V>>) {
        self.base.query_relationship_by_id(id)
    }

    fn query_containers(&self, element: &Pattern<V>) -> (r: Vec<Pattern<V>>) {
        self.base.query_containers(element)
    }
}

/// Recording one more node: its identity now maps to its relationships.
pub proof fn lemma_incident_by_id_push<V: GraphValue + Clone, Q: GraphQuery<V>>(q: Q, nodes: Seq<Tree<V>>, m: Tree<V>)
    ensures
        incident_by_id(q, nodes.push(m)) == incident_by_id(q, nodes).insert(m.value.identity_text(), q.incident_spec(m)),
{
    assert(nodes.push(m).drop_last() =~= nodes);
    assert(incident_by_id(q, nodes.push(m)) =~= incident_by_id(q, nodes).insert(m.value.identity_text(), q.incident_spec(m)));
}

/// `base` with the incident relationships of every node computed once, up front; a
/// node's degree is the number of its cached relationships.
pub fn memoize_incident_rels<V: GraphValue + Clone, Q: GraphQuery<V>>(base: Q) -> (r: MemoizedQuery<Q, V>)
    ensures
        r.base_query() == base,
{
    let nodes = base.query_nodes();
    let ghost ns = patterns_forest(nodes@);
    let mut cache: Vec<(Symbol, Vec<Pattern<V>>)> = Vec::new();
    let mut i: usize = 0;
    proof {
        assert(ns.take(0) =~= Seq::<Tree<V>>::empty());
        assert(keyed(cache@, trees_of()) =~= incident_by_id(base, ns.take(0)));
    }
    while i < nodes.len()
        invariant
            i <= nodes.len(),
            ns == patterns_forest(nodes@),
            exact_clone::<V>() ==> ns == base.nodes_spec(),
            keys_distinct(cache@),
            exact_clone::<V>() ==> keyed(cache@, trees_of()) == incident_by_id(base, ns.take(i as int)),
        decreases nodes.len() - i,
    {
        let node = &nodes[i];
        proof {
            lemma_pattern_view(*node);
        }
        let id = node.value.identify().clone();
        let rels = base.query_incident_rels(node);
        proof {
            crate::tree::lemma_take_step(ns, i as int);
            assert(ns[i as int] == node@);
            lemma_incident_by_id_push(base, ns.take(i as int), node@);
        }
        match position_of(&cache, &id) {
            Some(k) => {
                proof {
                    crate::pattern_graph::lemma_keyed_update(cache@, trees_of(), k as int, id, rels);
                }
                cache.set(k, (id, rels));
            },
            None => {
                proof {
                    crate::pattern_graph::lemma_keyed_push(cache@, trees_of(), id, rels);
                }
                cache.push((id, rels));
            },
        }
        i = i + 1;
    }
    proof {
        assert(ns.take(nodes.len() as int) =~= ns);
    }
    MemoizedQuery { base, cache }
}

} // verus!
