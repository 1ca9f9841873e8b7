use vstd::prelude::*;

use crate::pattern::{lemma_pattern_view, Pattern};
use crate::subject::{holds_symbol, symbol_texts, Symbol};
use crate::tree::Tree;

verus! {

/// Values that carry an identity, by which graph elements are told apart.
/// Each specification function has a default body: one fixed value, the same for
/// every argument. An implementation that keeps a default (as one written outside
/// Verus must) meets the methods' contracts only where its results are that value, so
/// what is proved of the library's functions carries over to it no further than that.
pub trait GraphValue {
    /// The text of this value's identity.
    closed spec fn identity_text(&self) -> Seq<char> {
        vstd::pervasive::arbitrary()
    }

    /// This value's identity.
    fn identify(&self) -> (r: &Symbol)
        ensures
            r@ == self.identity_text(),
    ;
}

/// The role of a pattern in a graph.
#[derive(Debug, PartialEq, Eq)]
pub enum GraphClass<Extra> {
    GNode,
    GRelationship,
    GAnnotation,
    GWalk,
    GOther(Extra),
}

/// `b` is a copy of `a`: the same role, with a cloned payload.
pub open spec fn class_cloned<Extra: Clone>(a: GraphClass<Extra>, b: GraphClass<Extra>) -> bool {
    match a {
        GraphClass::GOther(e) => b is GOther && cloned(e, b->GOther_0),
        _ => b == a,
    }
}

impl<Extra: Clone> Clone for GraphClass<Extra> {
    /// The same role, with the payload cloned.
    fn clone(&self) -> (r: Self)
        ensures
            class_cloned(*self, r),
    {
        match self {
            GraphClass::GNode => GraphClass::GNode,
            GraphClass::GRelationship => GraphClass::GRelationship,
            GraphClass::GAnnotation => GraphClass::GAnnotation,
            GraphClass::GWalk => GraphClass::GWalk,
            GraphClass::GOther(e) => GraphClass::GOther(e.clone()),
        }
    }
}

impl<Extra> GraphClass<Extra> {
    /// Maps the payload of `GOther` with `f`; the other roles stay as they are.
    pub fn map_other<F, B>(self, f: F) -> (r: GraphClass<B>)
        where
            F: FnOnce(Extra) -> B,
        requires
            self matches GraphClass::GOther(e) ==> f.requires((e,)),
        ensures
            match self {
                GraphClass::GNode => r is GNode,
                GraphClass::GRelationship => r is GRelationship,
                GraphClass::GAnnotation => r is GAnnotation,
                GraphClass::GWalk => r is GWalk,
                GraphClass::GOther(e) => r is GOther && f.ensures((e,), r->GOther_0),
            },
    {
        match self {
            GraphClass::GNode => GraphClass::GNode,
            GraphClass::GRelationship => GraphClass::GRelationship,
            GraphClass::GAnnotation => GraphClass::GAnnotation,
            GraphClass::GWalk => GraphClass::GWalk,
            GraphClass::GOther(e) => GraphClass::GOther(f(e)),
        }
    }
}

/// Something that assigns patterns their role in a graph.
pub trait Classify<Extra, V> {
    /// The classifier can be asked about any pattern.
    spec fn ready(&self) -> bool;

    /// `c` is a role that the classifier may give a pattern denoting `t`.
    spec fn classified(&self, t: Tree<V>, c: GraphClass<Extra>) -> bool;

    /// The role of `p`.
    fn classify(&self, p: &Pattern<V>) -> (r: GraphClass<Extra>)
        requires
            self.ready(),
        ensures
            self.classified(p@, r),
    ;
}

/// A classifier given by a classification function.
pub struct GraphClassifier<F> {
    pub classify: F,
}

impl<F> GraphClassifier<F> {
    /// A classifier that classifies with `f`.
    pub fn new(f: F) -> (r: Self)
        ensures
            r.classify == f,
    {
        GraphClassifier { classify: f }
    }
}

impl<Extra, V, F: Fn(&Pattern<V>) -> GraphClass<Extra>> Classify<Extra, V> for GraphClassifier<F> {
    open spec fn ready(&self) -> bool {
        forall|p: &Pattern<V>| #[trigger] self.classify.requires((p,))
    }

    open spec fn classified(&self, t: Tree<V>, c: GraphClass<Extra>) -> bool {
        exists|p: &Pattern<V>| p@ == t && #[trigger] self.classify.ensures((p,), c)
    }

    fn classify(&self, p: &Pattern<V>) -> (r: GraphClass<Extra>) {
        let r = (self.classify)(p);
        proof {
            assert(self.classify.ensures((p,), r));
        }
        r
    }
}

/// The classifier by shape (see [`classify_by_shape`]).
pub struct ShapeClassifier;

impl<V: GraphValue> Classify<(), V> for ShapeClassifier {
    open spec fn ready(&self) -> bool {
        true
    }

    open spec fn classified(&self, t: Tree<V>, c: GraphClass<()>) -> bool {
        c == shape_class(t)
    }

    fn classify(&self, p: &Pattern<V>) -> (r: GraphClass<()>) {
        classify_by_shape(p)
    }
}

/// The classifier that makes nodes of the patterns a test accepts, and others of
/// the rest.
pub struct TestNodeClassifier<F> {
    pub test_node: F,
}

impl<V, F: Fn(&Pattern<V>) -> bool> Classify<(), V> for TestNodeClassifier<F> {
    open spec fn ready(&self) -> bool {
        forall|p: &Pattern<V>| #[trigger] self.test_node.requires((p,))
    }

    open spec fn classified(&self, t: Tree<V>, c: GraphClass<()>) -> bool {
        exists|p: &Pattern<V>, accepted: bool|
            p@ == t && #[trigger] self.test_node.ensures((p,), accepted) && c == (if accepted {
                GraphClass::GNode
            } else {
                GraphClass::GOther(())
            })
    }

    fn classify(&self, p: &Pattern<V>) -> (r: GraphClass<()>) {
        let accepted = (self.test_node)(p);
        if accepted {
            proof {
                assert(self.test_node.ensures((p,), true));
            }
            GraphClass::GNode
        } else {
            proof {
                assert(self.test_node.ensures((p,), false));
            }
            GraphClass::GOther(())
        }
    }
}

/// A tree without elements.
pub open spec fn node_like<V>(t: Tree<V>) -> bool {
    t.children.len() == 0
}

/// A tree with two elements, both without elements.
pub open spec fn relationship_like<V>(t: Tree<V>) -> bool {
    &&& t.children.len() == 2
    &&& node_like(t.children[0])
    &&& node_like(t.children[1])
}

/// The identities still open at the end of the first `n` relationships of `rels`
/// walked in order, or `None` once one fails to connect to them. The walk starts open
/// at both ends of the first; each later relationship must touch an open identity,
/// and its other end (or both, when it touches both) becomes open.
pub open spec fn walk_frontier<V: GraphValue>(rels: Seq<Tree<V>>, n: nat) -> Option<Seq<Seq<char>>>
    decreases n,
{
    if n == 0 || n > rels.len() {
        None
    } else if n == 1 {
        if rels[0].children.len() == 2 {
            Some(seq![rels[0].children[0].value.identity_text(), rels[0].children[1].value.identity_text()])
        } else {
            None
        }
    } else {
        match walk_frontier(rels, (n - 1) as nat) {
            None => None,
            Some(f) => {
                let r = rels[n - 1];
                if r.children.len() != 2 {
                    None
                } else {
                    let a = r.children[0].value.identity_text();
                    let b = r.children[1].value.identity_text();
                    if f.contains(a) && f.contains(b) {
                        Some(seq![a, b])
                    } else if f.contains(a) {
                        Some(seq![b])
                    } else if f.contains(b) {
                        Some(seq![a])
                    } else {
                        None
                    }
                }
            },
        }
    }
}

/// The relationships `rels` form a walk: each connects to where the previous left off.
pub open spec fn valid_walk<V: GraphValue>(rels: Seq<Tree<V>>) -> bool {
    walk_frontier(rels, rels.len()) is Some
}

/// The role that the shape of `t` gives it.
pub open spec fn shape_class<V: GraphValue>(t: Tree<V>) -> GraphClass<()> {
    let els = t.children;
    if els.len() == 0 {
        GraphClass::GNode
    } else if els.len() == 1 {
        GraphClass::GAnnotation
    } else if els.len() == 2 && node_like(els[0]) && node_like(els[1]) {
        GraphClass::GRelationship
    } else if (forall|i: int| 0 <= i < els.len() ==> relationship_like(#[trigger] els[i])) && valid_walk(els) {
        GraphClass::GWalk
    } else {
        GraphClass::GOther(())
    }
}

/// Once the walk fails to connect, it stays failed.
pub proof fn lemma_walk_failure_persists<V: GraphValue>(rels: Seq<Tree<V>>, m: nat, n: nat)
    requires
        1 <= m <= n <= rels.len(),
        walk_frontier(rels, m) is None,
    ensures
        walk_frontier(rels, n) is None,
    decreases n,
{
    if n > m {
        lemma_walk_failure_persists(rels, m, (n - 1) as nat);
    }
}

/// Whether the relationships `rels` form a walk.
fn is_valid_walk<V: GraphValue>(rels: &[Pattern<V>]) -> (r: bool)
    ensures
        r == valid_walk(rels@.map_values(|p: Pattern<V>| p@)),
{
    let ghost ts = rels@.map_values(|p: Pattern<V>| p@);
    if rels.len() == 0 {
        proof {
            assert(ts.len() == 0);
        }
        return false;
    }
    let first = &rels[0];
    proof {
        lemma_pattern_view(*first);
        assert(ts[0] == first@);
    }
    if first.elements.len() != 2 {
        proof {
            assert(walk_frontier(ts, 1) is None);
            lemma_walk_failure_persists(ts, 1, ts.len());
        }
        return false;
    }
    let mut frontier: Vec<Symbol> = Vec::new();
    frontier.push(first.elements[0].value.identify().clone());
    frontier.push(first.elements[1].value.identify().clone());
    proof {
        lemma_pattern_view(first.elements@[0]);
        lemma_pattern_view(first.elements@[1]);
        assert(symbol_texts(frontier@) =~= walk_frontier(ts, 1)->Some_0);
    }
    let mut i: usize = 1;
    while i < rels.len()
        invariant
            1 <= i <= rels.len(),
            ts == rels@.map_values(|p: Pattern<V>| p@),
            walk_frontier(ts, i as nat) is Some,
            symbol_texts(frontier@) == walk_frontier(ts, i as nat)->Some_0,
        decreases rels.len() - i,
    {
        let rel = &rels[i];
        proof {
            lemma_pattern_view(*rel);
            assert(ts[i as int] == rel@);
        }
        if rel.elements.len() != 2 {
            proof {
                assert(walk_frontier(ts, (i + 1) as nat) is None);
                lemma_walk_failure_persists(ts, (i + 1) as nat, ts.len());
            }
            return false;
        }
        let a = rel.elements[0].value.identify();
        let b = rel.elements[1].value.identify();
        proof {
            lemma_pattern_view(rel.elements@[0]);
            lemma_pattern_view(rel.elements@[1]);
        }
        let a_matches = holds_symbol(&frontier, a);
        let b_matches = holds_symbol(&frontier, b);
        let mut next: Vec<Symbol> = Vec::new();
        if a_matches && b_matches {
            next.push(a.clone());
            next.push(b.clone());
        } else if a_matches {
            next.push(b.clone());
        } else if b_matches {
            next.push(a.clone());
        } else {
            proof {
                assert(walk_frontier(ts, (i + 1) as nat) is None);
                lemma_walk_failure_persists(ts, (i + 1) as nat, ts.len());
            }
            return false;
        }
        frontier = next;
        proof {
            assert(symbol_texts(frontier@) =~= walk_frontier(ts, (i + 1) as nat)->Some_0);
        }
        i = i + 1;
    }
    frontier.len() > 0
}

/// Classifies a pattern by its shape: no elements is a node, one an annotation, two
/// element-less elements a relationship, relationships that form a walk a walk, and
/// anything else other.
pub fn classify_by_shape<V: GraphValue>(pattern: &Pattern<V>) -> (r: GraphClass<()>)
    ensures
        r == shape_class(pattern@),
{
    proof {
        lemma_pattern_view(*pattern);
    }
    let els = &pattern.elements;
    if els.len() == 0 {
        GraphClass::GNode
    } else if els.len() == 1 {
        GraphClass::GAnnotation
    } else if els.len() == 2 && els[0].elements.len() == 0 && els[1].elements.len() == 0 {
        proof {
            lemma_pattern_view(els@[0]);
            lemma_pattern_view(els@[1]);
        }
        GraphClass::GRelationship
    } else {
        proof {
            if els.len() == 2 {
                lemma_pattern_view(els@[0]);
                lemma_pattern_view(els@[1]);
            }
        }
        let mut all_rels = true;
        let mut i: usize = 0;
        while i < els.len()
            invariant
                i <= els.len(),
                pattern@.children.len() == els.len(),
                forall|k: int| 0 <= k < els.len() ==> #[trigger] pattern@.children[k] == els@[k]@,
                all_rels == (forall|k: int| 0 <= k < i ==> relationship_like(#[trigger] pattern@.children[k])),
            decreases els.len() - i,
        {
            let e = &els[i];
            proof {
                lemma_pattern_view(*e);
                if e.elements.len() == 2 {
                    lemma_pattern_view(e.elements@[0]);
                    lemma_pattern_view(e.elements@[1]);
                }
            }
            let ok = e.elements.len() == 2 && e.elements[0].elements.len() == 0 && e.elements[1].elements.len() == 0;
            proof {
                assert(pattern@.children[i as int] == e@);
                assert(ok == relationship_like(e@));
            }
            if !ok {
                all_rels = false;
            }
            i = i + 1;
        }
        if all_rels && is_valid_walk(els.as_slice()) {
            proof {
                assert(els@.map_values(|p: Pattern<V>| p@) =~= pattern@.children);
            }
            GraphClass::GWalk
        } else {
            proof {
                assert(els@.map_values(|p: Pattern<V>| p@) =~= pattern@.children);
            }
            GraphClass::GOther(())
        }
    }
}

/// The classifier by shape.
pub fn canonical_classifier() -> (r: ShapeClassifier) {
    ShapeClassifier
}

/// The classifier that makes nodes of what `test_node` accepts, and others of the rest.
pub fn from_test_node<F>(test_node: F) -> (r: TestNodeClassifier<F>)
    ensures
        r.test_node == test_node,
{
    TestNodeClassifier { test_node }
}

} // verus!
