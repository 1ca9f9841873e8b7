use vstd::prelude::*;

use vstd::std_specs::cmp::PartialEqSpec;

use crate::graph::graph_classifier::{canonical_classifier, GraphValue, ShapeClassifier};
use crate::graph::graph_view::entry_trees;
use crate::pattern::{lemma_pattern_view, patterns_forest, Pattern};
use crate::pattern_graph::{
    copy_of, deterministic, empty_model, keyed, keys_distinct, lemma_keyed_at, lemma_keyed_push, lemma_keyed_update,
    merged, merged_each, position_of, tree_of, GraphModel, PatternGraph,
};
use crate::reconcile::{exact_clone, HasIdentity, Mergeable, ReconciliationPolicy, Refinable};
use crate::subject::Symbol;
use crate::tree::{self, Tree};

verus! {

/// Values that can stand in for an element known only by its identity.
pub trait Placeholder: GraphValue + Sized {
    /// A value with identity `id` and nothing else.
    fn placeholder(id: &Symbol) -> (r: Self)
        ensures
            r.identity_text() == id@,
    ;
}

/// A graph built element by element: nodes, relationships between nodes, walks along
/// relationships and annotations of elements, each kept by identity.
pub struct StandardGraph<V> {
    inner: PatternGraph<(), V>,
}

impl<V> View for StandardGraph<V> {
    type V = GraphModel<(), V>;

    closed spec fn view(&self) -> GraphModel<(), V> {
        self.inner@
    }
}

impl<V> StandardGraph<V> {
    /// Each collection holds at most one entry per identity (kept by every value).
    #[verifier::type_invariant]
    pub closed spec fn well_formed(&self) -> bool {
        self.inner.well_formed()
    }

    /// The pattern graph inside.
    pub closed spec fn inner_graph(&self) -> PatternGraph<(), V> {
        self.inner
    }

    /// The view is the view of the pattern graph inside.
    pub proof fn lemma_view_is_inner(&self)
        ensures
            self@ == self.inner_graph()@,
    {
    }
}

/// The pattern kept under `id`, if any.
fn find_entry<'a, V>(entries: &'a Vec<(Symbol, Pattern<V>)>, id: &Symbol) -> (r: Option<&'a Pattern<V>>)
    requires
        keys_distinct(entries@),
    ensures
        match r {
            Some(p) => keyed(entries@, tree_of()).contains_key(id@) && p@ == keyed(entries@, tree_of())[id@],
            None => !keyed(entries@, tree_of()).contains_key(id@),
        },
{
    match position_of(entries, id) {
        Some(k) => {
            proof {
                lemma_keyed_at(entries@, tree_of(), k as int);
            }
            Some(&entries[k].1)
        },
        None => None,
    }
}

/// Keeps `p` under `id`, replacing what was there.
fn put_entry<V>(entries: &mut Vec<(Symbol, Pattern<V>)>, id: Symbol, p: Pattern<V>)
    requires
        keys_distinct(old(entries)@),
    ensures
        keys_distinct(final(entries)@),
        keyed(final(entries)@, tree_of()) == keyed(old(entries)@, tree_of()).insert(id@, p@),
{
    let ghost before = entries@;
    match position_of(entries, &id) {
        Some(k) => {
            proof {
                lemma_keyed_update(before, tree_of(), k as int, id, p);
            }
            entries.set(k, (id, p));
        },
        None => {
            proof {
                lemma_keyed_push(before, tree_of(), id, p);
            }
            entries.push((id, p));
        },
    }
}

/// With distinct keys, there are as many keys as entries.
pub proof fn lemma_keyed_len<W, M>(s: Seq<(Symbol, W)>, f: spec_fn(W) -> M)
    requires
        keys_distinct(s),
    ensures
        keyed(s, f).dom().finite(),
        keyed(s, f).dom().len() == s.len(),
    decreases s.len(),
{
    if s.len() == 0 {
        assert(keyed(s, f).dom() =~= Set::<Seq<char>>::empty());
    } else {
        let t = s.drop_last();
        assert(keys_distinct(t));
        lemma_keyed_len(t, f);
        assert(!crate::pattern_graph::has_key(t, s.last().0@)) by {
            if crate::pattern_graph::has_key(t, s.last().0@) {
                let i = choose|i: int| 0 <= i < t.len() && (#[trigger] t[i]).0@ == s.last().0@;
                assert(s[i].0@ != s[s.len() - 1].0@);
            }
        }
        lemma_keyed_push(t, f, s.last().0, s.last().1);
        assert(t.push((s.last().0, s.last().1)) =~= s);
    }
}

impl<V: GraphValue + Clone> StandardGraph<V> {
    /// A graph with nothing in it.
    pub fn new() -> (r: Self)
        ensures
            r.well_formed(),
            r@ == empty_model::<(), V>(),
    {
        StandardGraph { inner: PatternGraph::empty() }
    }

    /// Adds `subject` as a node, replacing any node of its identity.
    pub fn add_node(&mut self, subject: V) -> (r: &mut Self)
        ensures
            r.well_formed(),
            r@ == (GraphModel { nodes: old(self)@.nodes.insert(subject.identity_text(), tree::leaf(subject)), ..old(self)@ }),
            *final(self) == *final(r),
    {
        proof {
            use_type_invariant(&*self);
        }
        let id = subject.identify().clone();
        let p = Pattern::point(subject);
        let mut g = PatternGraph::empty();
        std::mem::swap(&mut g, &mut self.inner);
        put_entry(&mut g.pg_nodes, id, p);
        self.inner = g;
        self
    }
}


// ---------------------------------------------------------------------------
// Placeholders and lookups
// ---------------------------------------------------------------------------

/// `t` is what `m` keeps under `id`, or, where it keeps nothing, a leaf of identity
/// `id`.
pub open spec fn kept_or_placeholder<V: GraphValue>(m: Map<Seq<char>, Tree<V>>, id: Seq<char>, t: Tree<V>) -> bool {
    if m.contains_key(id) {
        t == m[id]
    } else {
        t.children.len() == 0 && t.value.identity_text() == id
    }
}

/// `m`, keeping `t` under `id` where it kept nothing.
pub open spec fn with_missing<V>(m: Map<Seq<char>, Tree<V>>, id: Seq<char>, t: Tree<V>) -> Map<Seq<char>, Tree<V>> {
    if m.contains_key(id) {
        m
    } else {
        m.insert(id, t)
    }
}

/// The element of identity `id`: the node, else the relationship, else the walk,
/// else the annotation of that identity, if any.
pub open spec fn element_in<Extra, V>(g: GraphModel<Extra, V>, id: Seq<char>) -> Option<Tree<V>> {
    if g.nodes.contains_key(id) {
        Some(g.nodes[id])
    } else if g.relationships.contains_key(id) {
        Some(g.relationships[id])
    } else if g.walks.contains_key(id) {
        Some(g.walks[id])
    } else if g.annotations.contains_key(id) {
        Some(g.annotations[id])
    } else {
        None
    }
}

/// The other end of `rel` from the node of identity `id`: its target when its source
/// has that identity, else its source when its target has; only for relationships
/// of two elements.
pub open spec fn other_end<V: GraphValue>(rel: Tree<V>, id: Seq<char>) -> Seq<Tree<V>> {
    if rel.children.len() == 2 {
        if rel.children[0].value.identity_text() == id {
            seq![rel.children[1]]
        } else if rel.children[1].value.identity_text() == id {
            seq![rel.children[0]]
        } else {
            Seq::empty()
        }
    } else {
        Seq::empty()
    }
}

/// The other ends of the relationships `rels` from the node of identity `id`, in order.
pub open spec fn other_ends<V: GraphValue>(rels: Seq<Tree<V>>, id: Seq<char>) -> Seq<Tree<V>>
    decreases rels.len(),
{
    if rels.len() == 0 {
        Seq::empty()
    } else {
        other_ends(rels.drop_last(), id) + other_end(rels.last(), id)
    }
}

/// The trees of a sequence of pattern references.
pub open spec fn ref_trees<V>(s: Seq<&Pattern<V>>) -> Seq<Tree<V>> {
    s.map_values(|p: &Pattern<V>| p@)
}

impl<V: GraphValue + Clone> StandardGraph<V> {
    /// The node of identity `id`.
    pub fn node(&self, id: &Symbol) -> (r: Option<&Pattern<V>>)
        ensures
            match r {
                Some(p) => self@.nodes.contains_key(id@) && p@ == self@.nodes[id@],
                None => !self@.nodes.contains_key(id@),
            },
    {
        proof {
            use_type_invariant(&*self);
        }
        find_entry(&self.inner.pg_nodes, id)
    }

    /// The relationship of identity `id`.
    pub fn relationship(&self, id: &Symbol) -> (r: Option<&Pattern<V>>)
        ensures
            match r {
                Some(p) => self@.relationships.contains_key(id@) && p@ == self@.relationships[id@],
                None => !self@.relationships.contains_key(id@),
            },
    {
        proof {
            use_type_invariant(&*self);
        }
        find_entry(&self.inner.pg_relationships, id)
    }

    /// The walk of identity `id`.
    pub fn walk(&self, id: &Symbol) -> (r: Option<&Pattern<V>>)
        ensures
            match r {
                Some(p) => self@.walks.contains_key(id@) && p@ == self@.walks[id@],
                None => !self@.walks.contains_key(id@),
            },
    {
        proof {
            use_type_invariant(&*self);
        }
        find_entry(&self.inner.pg_walks, id)
    }

    /// The annotation of identity `id`.
    pub fn annotation(&self, id: &Symbol) -> (r: Option<&Pattern<V>>)
        ensures
            match r {
                Some(p) => self@.annotations.contains_key(id@) && p@ == self@.annotations[id@],
                None => !self@.annotations.contains_key(id@),
            },
    {
        proof {
            use_type_invariant(&*self);
        }
        find_entry(&self.inner.pg_annotations, id)
    }

    /// The number of nodes.
    pub fn node_count(&self) -> (r: usize)
        ensures
            r == self@.nodes.dom().len(),
    {
        proof {
            use_type_invariant(&*self);
        }
        proof {
            lemma_keyed_len(self.inner.pg_nodes@, tree_of());
        }
        self.inner.pg_nodes.len()
    }

    /// The number of relationships.
    pub fn relationship_count(&self) -> (r: usize)
        ensures
            r == self@.relationships.dom().len(),
    {
        proof {
            use_type_invariant(&*self);
        }
        proof {
            lemma_keyed_len(self.inner.pg_relationships@, tree_of());
        }
        self.inner.pg_relationships.len()
    }

    /// The number of walks.
    pub fn walk_count(&self) -> (r: usize)
        ensures
            r == self@.walks.dom().len(),
    {
        proof {
            use_type_invariant(&*self);
        }
        proof {
            lemma_keyed_len(self.inner.pg_walks@, tree_of());
        }
        self.inner.pg_walks.len()
    }

    /// The number of annotations.
    pub fn annotation_count(&self) -> (r: usize)
        ensures
            r == self@.annotations.dom().len(),
    {
        proof {
            use_type_invariant(&*self);
        }
        proof {
            lemma_keyed_len(self.inner.pg_annotations@, tree_of());
        }
        self.inner.pg_annotations.len()
    }

    /// Whether the graph has no nodes, relationships, walks, annotations or other
    /// patterns.
    pub fn is_empty(&self) -> (r: bool)
        ensures
            r == (self@.nodes.dom().len() == 0 && self@.relationships.dom().len() == 0 && self@.walks.dom().len() == 0
                && self@.annotations.dom().len() == 0 && self@.other.dom().len() == 0),
    {
        proof {
            use_type_invariant(&*self);
        }
        proof {
            lemma_keyed_len(self.inner.pg_nodes@, tree_of());
            lemma_keyed_len(self.inner.pg_relationships@, tree_of());
            lemma_keyed_len(self.inner.pg_walks@, tree_of());
            lemma_keyed_len(self.inner.pg_annotations@, tree_of());
            lemma_keyed_len(self.inner.pg_other@, crate::pattern_graph::other_of());
        }
        self.inner.pg_nodes.len() == 0 && self.inner.pg_relationships.len() == 0 && self.inner.pg_walks.len() == 0
            && self.inner.pg_annotations.len() == 0 && self.inner.pg_other.len() == 0
    }

    /// Whether some identity could not be reconciled.
    pub fn has_conflicts(&self) -> (r: bool)
        ensures
            r == (self@.conflicts.dom().len() > 0),
    {
        proof {
            use_type_invariant(&*self);
        }
        proof {
            lemma_keyed_len(self.inner.pg_conflicts@, crate::pattern_graph::trees_of());
        }
        self.inner.pg_conflicts.len() > 0
    }

    /// The occurrences set aside as conflicts, by identity.
    pub fn conflicts(&self) -> (r: &Vec<(Symbol, Vec<Pattern<V>>)>)
        ensures
            *r == self.inner_graph().pg_conflicts,
    {
        proof {
            use_type_invariant(&*self);
        }
        &self.inner.pg_conflicts
    }

    /// The other patterns, by identity.
    pub fn other(&self) -> (r: &Vec<(Symbol, ((), Pattern<V>))>)
        ensures
            *r == self.inner_graph().pg_other,
    {
        proof {
            use_type_invariant(&*self);
        }
        &self.inner.pg_other
    }

    /// The nodes, by identity.
    pub fn nodes(&self) -> (r: &Vec<(Symbol, Pattern<V>)>)
        ensures
            *r == self.inner_graph().pg_nodes,
    {
        proof {
            use_type_invariant(&*self);
        }
        &self.inner.pg_nodes
    }

    /// The relationships, by identity.
    pub fn relationships(&self) -> (r: &Vec<(Symbol, Pattern<V>)>)
        ensures
            *r == self.inner_graph().pg_relationships,
    {
        proof {
            use_type_invariant(&*self);
        }
        &self.inner.pg_relationships
    }

    /// The walks, by identity.
    pub fn walks(&self) -> (r: &Vec<(Symbol, Pattern<V>)>)
        ensures
            *r == self.inner_graph().pg_walks,
    {
        proof {
            use_type_invariant(&*self);
        }
        &self.inner.pg_walks
    }

    /// The annotations, by identity.
    pub fn annotations(&self) -> (r: &Vec<(Symbol, Pattern<V>)>)
        ensures
            *r == self.inner_graph().pg_annotations,
    {
        proof {
            use_type_invariant(&*self);
        }
        &self.inner.pg_annotations
    }

    /// The first element of the relationship of identity `rel_id`.
    pub fn source(&self, rel_id: &Symbol) -> (r: Option<&Pattern<V>>)
        ensures
            match r {
                Some(p) => self@.relationships.contains_key(rel_id@) && self@.relationships[rel_id@].children.len() >= 1
                    && p@ == self@.relationships[rel_id@].children[0],
                None => !(self@.relationships.contains_key(rel_id@) && self@.relationships[rel_id@].children.len() >= 1),
            },
    {
        proof {
            use_type_invariant(&*self);
        }
        match find_entry(&self.inner.pg_relationships, rel_id) {
            Some(rel) => {
                proof {
                    lemma_pattern_view(*rel);
                }
                if rel.elements.len() >= 1 {
                    Some(&rel.elements[0])
                } else {
                    None
                }
            },
            None => None,
        }
    }

    /// The second element of the relationship of identity `rel_id`.
    pub fn target(&self, rel_id: &Symbol) -> (r: Option<&Pattern<V>>)
        ensures
            match r {
                Some(p) => self@.relationships.contains_key(rel_id@) && self@.relationships[rel_id@].children.len() >= 2
                    && p@ == self@.relationships[rel_id@].children[1],
                None => !(self@.relationships.contains_key(rel_id@) && self@.relationships[rel_id@].children.len() >= 2),
            },
    {
        proof {
            use_type_invariant(&*self);
        }
        match find_entry(&self.inner.pg_relationships, rel_id) {
            Some(rel) => {
                proof {
                    lemma_pattern_view(*rel);
                }
                if rel.elements.len() >= 2 {
                    Some(&rel.elements[1])
                } else {
                    None
                }
            },
            None => None,
        }
    }

    /// The other ends of the two-element relationships at the node of identity
    /// `node_id`, in the order the relationships are kept.
    pub fn neighbors(&self, node_id: &Symbol) -> (r: Vec<&Pattern<V>>)
        ensures
            ref_trees(r@) == other_ends(entry_trees(self.inner_graph().pg_relationships@), node_id@),
    {
        proof {
            use_type_invariant(&*self);
        }
        let rels = &self.inner.pg_relationships;
        let ghost ts = entry_trees(rels@);
        let mut r: Vec<&Pattern<V>> = Vec::new();
        let mut i: usize = 0;
        proof {
            assert(ref_trees(r@) =~= other_ends(ts.take(0), node_id@));
        }
        while i < rels.len()
            invariant
                i <= rels.len(),
                ts == entry_trees(rels@),
                ref_trees(r@) == other_ends(ts.take(i as int), node_id@),
            decreases rels.len() - i,
        {
            let rel = &rels[i].1;
            proof {
                lemma_pattern_view(*rel);
                crate::tree::lemma_take_step(ts, i as int);
                assert(ts[i as int] == rel@);
            }
            let ghost before = r@;
            if rel.elements.len() == 2 {
                let a = &rel.elements[0];
                let b = &rel.elements[1];
                proof {
                    lemma_pattern_view(*a);
                    lemma_pattern_view(*b);
                }
                if *a.value.identify() == *node_id {
                    r.push(b);
                } else if *b.value.identify() == *node_id {
                    r.push(a);
                }
            }
            proof {
                assert(ref_trees(r@) =~= ref_trees(before) + other_end(rel@, node_id@));
                assert(ref_trees(r@) =~= other_ends(ts.take(i + 1), node_id@));
            }
            i = i + 1;
        }
        proof {
            assert(ts.take(rels.len() as int) =~= ts);
        }
        r
    }

    /// The number of two-element relationships at the node of identity `node_id`.
    pub fn degree(&self, node_id: &Symbol) -> (r: usize)
        ensures
            r == other_ends(entry_trees(self.inner_graph().pg_relationships@), node_id@).len(),
    {
        proof {
            use_type_invariant(&*self);
        }
        self.neighbors(node_id).len()
    }

    /// The pattern graph inside.
    pub fn as_pattern_graph(&self) -> (r: &PatternGraph<(), V>)
        ensures
            *r == self.inner_graph(),
            r.well_formed(),
    {
        proof {
            use_type_invariant(&*self);
        }
        proof {
            use_type_invariant(self);
        }
        &self.inner
    }

    /// The pattern graph inside, taken out.
    pub fn into_pattern_graph(self) -> (r: PatternGraph<(), V>)
        ensures
            r == self.inner_graph(),
            r.well_formed(),
    {
        proof {
            use_type_invariant(&self);
        }
        self.inner
    }

    /// The graph around an existing pattern graph.
    pub fn from_pattern_graph(graph: PatternGraph<(), V>) -> (r: Self)
        requires
            graph.well_formed(),
        ensures
            r.inner_graph() == graph,
    {
        StandardGraph { inner: graph }
    }
}


// ---------------------------------------------------------------------------
// Adding elements
// ---------------------------------------------------------------------------

/// `new` is `old` with a relationship of `subject` from the node `s` to the node `t`:
/// each is the node kept under its identity, or a placeholder node, kept from then on.
pub open spec fn relationship_added<V: GraphValue>(
    old: GraphModel<(), V>,
    subject: V,
    source: Seq<char>,
    target: Seq<char>,
    s: Tree<V>,
    t: Tree<V>,
    new: GraphModel<(), V>,
) -> bool {
    &&& kept_or_placeholder(old.nodes, source, s)
    &&& kept_or_placeholder(with_missing(old.nodes, source, s), target, t)
    &&& new == (GraphModel {
        nodes: with_missing(with_missing(old.nodes, source, s), target, t),
        relationships: old.relationships.insert(subject.identity_text(), Tree { value: subject, children: seq![s, t] }),
        ..old
    })
}

/// `new` is `old` with a walk of `subject` along `els`, each the relationship kept
/// under the corresponding identity of `ids`, or a placeholder (not kept).
pub open spec fn walk_added<V: GraphValue>(
    old: GraphModel<(), V>,
    subject: V,
    ids: Seq<Seq<char>>,
    els: Seq<Tree<V>>,
    new: GraphModel<(), V>,
) -> bool {
    &&& els.len() == ids.len()
    &&& forall|i: int| 0 <= i < ids.len() ==> kept_or_placeholder(old.relationships, #[trigger] ids[i], els[i])
    &&& new == (GraphModel {
        walks: old.walks.insert(subject.identity_text(), Tree { value: subject, children: els }),
        ..old
    })
}

/// `new` is `old` with an annotation of `subject` on `e`: the element of identity
/// `id`, or a placeholder node (not kept).
pub open spec fn annotation_added<V: GraphValue>(
    old: GraphModel<(), V>,
    subject: V,
    id: Seq<char>,
    e: Tree<V>,
    new: GraphModel<(), V>,
) -> bool {
    &&& match element_in(old, id) {
        Some(x) => e == x,
        None => e.children.len() == 0 && e.value.identity_text() == id,
    }
    &&& new == (GraphModel {
        annotations: old.annotations.insert(subject.identity_text(), Tree { value: subject, children: seq![e] }),
        ..old
    })
}

impl<V: Placeholder + Clone> StandardGraph<V> {
    /// The node of identity `id` in `g`, or, when there is none, a new placeholder
    /// node, kept under `id`.
    fn get_or_create_placeholder_node(g: &mut PatternGraph<(), V>, id: &Symbol) -> (r: Pattern<V>)
        requires
            old(g).well_formed(),
        ensures
            final(g).well_formed(),
            exact_clone::<V>() ==> kept_or_placeholder(old(g)@.nodes, id@, r@),
            exact_clone::<V>() ==> final(g)@ == (GraphModel { nodes: with_missing(old(g)@.nodes, id@, r@), ..old(g)@ }),
    {
        let found = match find_entry(&g.pg_nodes, id) {
            Some(n) => Some(copy_of(n)),
            None => None,
        };
        match found {
            Some(n) => n,
            None => {
                let placeholder = Pattern::point(V::placeholder(id));
                let kept = copy_of(&placeholder);
                put_entry(&mut g.pg_nodes, id.clone(), kept);
                placeholder
            },
        }
    }

    /// The relationship of identity `id`, or a placeholder for it (not kept).
    fn get_or_create_placeholder_relationship(&self, id: &Symbol) -> (r: Pattern<V>)
        ensures
            exact_clone::<V>() ==> kept_or_placeholder(self@.relationships, id@, r@),
    {
        proof {
            use_type_invariant(&*self);
        }
        match find_entry(&self.inner.pg_relationships, id) {
            Some(p) => copy_of(p),
            None => Pattern::point(V::placeholder(id)),
        }
    }

    /// The element of identity `id`: a node, else a relationship, else a walk, else an
    /// annotation.
    fn find_element(&self, id: &Symbol) -> (r: Option<Pattern<V>>)
        ensures
            exact_clone::<V>() ==> crate::graph::graph_query::option_tree(r) == element_in(self@, id@),
    {
        proof {
            use_type_invariant(&*self);
        }
        if let Some(p) = find_entry(&self.inner.pg_nodes, id) {
            return Some(copy_of(p));
        }
        if let Some(p) = find_entry(&self.inner.pg_relationships, id) {
            return Some(copy_of(p));
        }
        if let Some(p) = find_entry(&self.inner.pg_walks, id) {
            return Some(copy_of(p));
        }
        if let Some(p) = find_entry(&self.inner.pg_annotations, id) {
            return Some(copy_of(p));
        }
        None
    }

    /// Adds a relationship of `subject` from the node of identity `source` to the node
    /// of identity `target`, replacing any relationship of its identity; a missing
    /// end becomes a placeholder node.
    pub fn add_relationship(&mut self, subject: V, source: &Symbol, target: &Symbol) -> (r: &mut Self)
        ensures
            r.well_formed(),
            *final(self) == *final(r),
            exact_clone::<V>() ==> exists|s: Tree<V>, t: Tree<V>|
                #[trigger] relationship_added(old(self)@, subject, source@, target@, s, t, r@),
    {
        proof {
            use_type_invariant(&*self);
        }
        let ghost g0 = self@;
        let mut g = PatternGraph::empty();
        std::mem::swap(&mut g, &mut self.inner);
        let s = Self::get_or_create_placeholder_node(&mut g, source);
        let t = Self::get_or_create_placeholder_node(&mut g, target);
        let id = subject.identify().clone();
        let ghost sv = subject;
        let p = Pattern::pattern(subject, vec![s, t]);
        proof {
            assert(patterns_forest(p.elements@) =~= seq![s@, t@]);
        }
        put_entry(&mut g.pg_relationships, id, p);
        self.inner = g;
        proof {
            if exact_clone::<V>() {
                assert(relationship_added(g0, sv, source@, target@, s@, t@, self@));
            }
        }
        self
    }

    /// Adds a walk of `subject` along the relationships of identities `relationships`,
    /// replacing any walk of its identity; a missing relationship is stood in for by
    /// a placeholder.
    pub fn add_walk(&mut self, subject: V, relationships: &[Symbol]) -> (r: &mut Self)
        ensures
            r.well_formed(),
            *final(self) == *final(r),
            exact_clone::<V>() ==> exists|els: Seq<Tree<V>>|
                #[trigger] walk_added(old(self)@, subject, crate::subject::symbol_texts(relationships@), els, r@),
    {
        proof {
            use_type_invariant(&*self);
        }
        let ghost ids = crate::subject::symbol_texts(relationships@);
        let mut rels: Vec<Pattern<V>> = Vec::new();
        let mut i: usize = 0;
        while i < relationships.len()
            invariant
                i <= relationships.len(),
                self.well_formed(),
                ids == crate::subject::symbol_texts(relationships@),
                rels.len() == i,
                exact_clone::<V>() ==> forall|k: int| 0 <= k < i ==> kept_or_placeholder(self@.relationships, #[trigger] ids[k], rels@[k]@),
            decreases relationships.len() - i,
        {
            let p = self.get_or_create_placeholder_relationship(&relationships[i]);
            let ghost before = rels@;
            rels.push(p);
            proof {
                assert(ids[i as int] == relationships@[i as int]@);
                assert forall|k: int| 0 <= k < i + 1 && exact_clone::<V>() implies kept_or_placeholder(self@.relationships, #[trigger] ids[k], rels@[k]@) by {
                    if k < i {
                        assert(rels@[k] == before[k]);
                    }
                }
            }
            i = i + 1;
        }
        let ghost g0 = self@;
        let id = subject.identify().clone();
        let ghost sv = subject;
        let p = Pattern::pattern(subject, rels);
        let mut g = PatternGraph::empty();
        std::mem::swap(&mut g, &mut self.inner);
        put_entry(&mut g.pg_walks, id, p);
        self.inner = g;
        proof {
            if exact_clone::<V>() {
                assert(walk_added(g0, sv, ids, patterns_forest(p.elements@), self@));
            }
        }
        self
    }

    /// Adds an annotation of `subject` on the element of identity `element`, replacing
    /// any annotation of its identity; a missing element is stood in for by a
    /// placeholder node.
    pub fn add_annotation(&mut self, subject: V, element: &Symbol) -> (r: &mut Self)
        ensures
            r.well_formed(),
            *final(self) == *final(r),
            exact_clone::<V>() ==> exists|e: Tree<V>| #[trigger] annotation_added(old(self)@, subject, element@, e, r@),
    {
        proof {
            use_type_invariant(&*self);
        }
        let ghost g0 = self@;
        let e = match self.find_element(element) {
            Some(p) => p,
            None => Pattern::point(V::placeholder(element)),
        };
        let id = subject.identify().clone();
        let ghost sv = subject;
        let p = Pattern::pattern(subject, vec![e]);
        proof {
            assert(patterns_forest(p.elements@) =~= seq![e@]);
        }
        let mut g = PatternGraph::empty();
        std::mem::swap(&mut g, &mut self.inner);
        put_entry(&mut g.pg_annotations, id, p);
        self.inner = g;
        proof {
            if exact_clone::<V>() {
                assert(annotation_added(g0, sv, element@, e@, self@));
            }
        }
        self
    }
}

impl<V: GraphValue + HasIdentity<V, Symbol> + Mergeable + Refinable + PartialEq + Clone> StandardGraph<V> {
    /// Merges `pattern` in, classified by shape, the later occurrence of an identity
    /// winning.
    pub fn add_pattern(&mut self, pattern: Pattern<V>) -> (r: &mut Self)
        ensures
            r.well_formed(),
            *final(self) == *final(r),
            exact_clone::<V>() && V::obeys_eq_spec() ==> r@ == merged(
                ShapeClassifier,
                ReconciliationPolicy::LastWriteWins,
                pattern@,
                old(self)@,
            ),
    {
        proof {
            use_type_invariant(&*self);
        }
        let classifier = canonical_classifier();
        proof {
            assert(deterministic::<(), V, ShapeClassifier>(classifier));
        }
        let mut g = PatternGraph::empty();
        std::mem::swap(&mut g, &mut self.inner);
        self.inner = crate::pattern_graph::merge(&classifier, pattern, g);
        self
    }

    /// Merges `patterns` in, in order, as [`StandardGraph::add_pattern`] does.
    pub fn add_patterns(&mut self, patterns: Vec<Pattern<V>>) -> (r: &mut Self)
        ensures
            r.well_formed(),
            *final(self) == *final(r),
            exact_clone::<V>() && V::obeys_eq_spec() ==> r@ == merged_each(
                ShapeClassifier,
                ReconciliationPolicy::LastWriteWins,
                patterns_forest(patterns@),
                old(self)@,
            ),
    {
        proof {
            use_type_invariant(&*self);
        }
        let classifier = canonical_classifier();
        proof {
            assert(deterministic::<(), V, ShapeClassifier>(classifier));
        }
        let ghost g0 = self@;
        let ghost ts = patterns_forest(patterns@);
        let mut pending = crate::pattern::combine::reversed(patterns);
        let n = pending.len();
        let mut g = PatternGraph::empty();
        std::mem::swap(&mut g, &mut self.inner);
        let mut j: usize = 0;
        proof {
            assert(ts.take(0) =~= Seq::<Tree<V>>::empty());
        }
        while pending.len() > 0
            invariant
                n == ts.len(),
                j + pending.len() == n,
                forall|k: int| 0 <= k < pending.len() ==> #[trigger] pending@[k]@ == ts[n - 1 - k],
                deterministic::<(), V, ShapeClassifier>(classifier),
                g.well_formed(),
                exact_clone::<V>() && V::obeys_eq_spec() ==> g@ == merged_each(
                    ShapeClassifier,
                    ReconciliationPolicy::LastWriteWins,
                    ts.take(j as int),
                    g0,
                ),
            decreases pending.len(),
        {
            let p = pending.pop().unwrap();
            proof {
                assert(p@ == ts[j as int]);
                crate::tree::lemma_take_step(ts, j as int);
                assert(ts.take(j + 1).drop_last() =~= ts.take(j as int));
            }
            g = crate::pattern_graph::merge(&classifier, p, g);
            j = j + 1;
        }
        proof {
            assert(ts.take(n as int) =~= ts);
        }
        self.inner = g;
        self
    }

    /// The graph of `patterns`, merged in order as [`StandardGraph::add_pattern`] does.
    pub fn from_patterns(patterns: Vec<Pattern<V>>) -> (r: Self)
        ensures
            r.well_formed(),
            exact_clone::<V>() && V::obeys_eq_spec() ==> r@ == merged_each(
                ShapeClassifier,
                ReconciliationPolicy::LastWriteWins,
                patterns_forest(patterns@),
                empty_model(),
            ),
    {
        let classifier = canonical_classifier();
        proof {
            assert(deterministic::<(), V, ShapeClassifier>(classifier));
        }
        StandardGraph { inner: crate::pattern_graph::from_patterns(&classifier, patterns) }
    }
}

impl<V: GraphValue + Clone> Default for StandardGraph<V> {
    /// A graph with nothing in it.
    fn default() -> (r: Self)
        ensures
            r.well_formed(),
            r@ == empty_model::<(), V>(),
    {
        StandardGraph::new()
    }
}


// ---------------------------------------------------------------------------
// Laws
// ---------------------------------------------------------------------------

/// A node added is read back: after `add_node`, the node of the subject's identity is
/// the subject as a leaf, and every other node is as it was.
pub proof fn lemma_node_read_after_add<V: GraphValue>(
    before: GraphModel<(), V>,
    subject: V,
    after: GraphModel<(), V>,
    id: Seq<char>,
)
    requires
        after == (GraphModel { nodes: before.nodes.insert(subject.identity_text(), tree::leaf(subject)), ..before }),
    ensures
        id == subject.identity_text() ==> after.nodes.contains_key(id) && after.nodes[id] == tree::leaf(subject),
        id != subject.identity_text() ==> after.nodes.contains_key(id) == before.nodes.contains_key(id),
        id != subject.identity_text() && before.nodes.contains_key(id) ==> after.nodes[id] == before.nodes[id],
{
}

/// After `add_relationship`, both ends are nodes of the graph, the relationship runs
/// between exactly those nodes, and the nodes that were there are kept.
pub proof fn lemma_relationship_ends_are_nodes<V: GraphValue>(
    before: GraphModel<(), V>,
    subject: V,
    source: Seq<char>,
    target: Seq<char>,
    s: Tree<V>,
    t: Tree<V>,
    after: GraphModel<(), V>,
)
    requires
        relationship_added(before, subject, source, target, s, t, after),
    ensures
        after.nodes.contains_key(source) && after.nodes[source] == s,
        after.nodes.contains_key(target) && after.nodes[target] == t,
        after.relationships.contains_key(subject.identity_text()),
        after.relationships[subject.identity_text()] == (Tree { value: subject, children: seq![s, t] }),
        forall|x: Seq<char>| #[trigger] before.nodes.contains_key(x) ==> after.nodes.contains_key(x) && after.nodes[x] == before.nodes[x],
{
}

} // verus!
