use vstd::prelude::*;

use vstd::std_specs::cmp::PartialEqSpec;

use crate::graph::graph_classifier::{Classify, GraphClass};
use crate::pattern::{lemma_pattern_view, patterns_forest, Pattern};
use crate::reconcile::{
    conflicting, exact_clone, id_of, reconcile, reconciled, HasIdentity, Mergeable,
    ReconciliationPolicy, Refinable,
};
use crate::subject::Symbol;
use crate::tree::Tree;

verus! {

// ---------------------------------------------------------------------------
// Keyed entries
// ---------------------------------------------------------------------------

/// No two entries share a key.
pub open spec fn keys_distinct<W>(s: Seq<(Symbol, W)>) -> bool {
    forall|i: int, j: int| 0 <= i < j < s.len() ==> (#[trigger] s[i]).0@ != (#[trigger] s[j]).0@
}

/// Some entry has key `k`.
pub open spec fn has_key<W>(s: Seq<(Symbol, W)>, k: Seq<char>) -> bool {
    exists|i: int| 0 <= i < s.len() && (#[trigger] s[i]).0@ == k
}

/// The entries as a map from key text to `f` of the value.
pub open spec fn keyed<W, M>(s: Seq<(Symbol, W)>, f: spec_fn(W) -> M) -> Map<Seq<char>, M> {
    Map::new(
        |k: Seq<char>| has_key(s, k),
        |k: Seq<char>| f(s[choose|i: int| 0 <= i < s.len() && (#[trigger] s[i]).0@ == k].1),
    )
}

/// Reading the entry at `i`.
pub proof fn lemma_keyed_at<W, M>(s: Seq<(Symbol, W)>, f: spec_fn(W) -> M, i: int)
    requires
        keys_distinct(s),
        0 <= i < s.len(),
    ensures
        keyed(s, f).contains_key(s[i].0@),
        keyed(s, f)[s[i].0@] == f(s[i].1),
{
    let k = s[i].0@;
    assert(has_key(s, k));
    let j = choose|j: int| 0 <= j < s.len() && (#[trigger] s[j]).0@ == k;
    if j != i {
        if j < i {
            assert(s[j].0@ != s[i].0@);
        } else {
            assert(s[i].0@ != s[j].0@);
        }
    }
}

/// Adding an entry under a new key.
pub proof fn lemma_keyed_push<W, M>(s: Seq<(Symbol, W)>, f: spec_fn(W) -> M, key: Symbol, v: W)
    requires
        keys_distinct(s),
        !has_key(s, key@),
    ensures
        keys_distinct(s.push((key, v))),
        keyed(s.push((key, v)), f) == keyed(s, f).insert(key@, f(v)),
{
    let t = s.push((key, v));
    assert forall|i: int, j: int| 0 <= i < j < t.len() implies (#[trigger] t[i]).0@ != (#[trigger] t[j]).0@ by {
        if j == s.len() {
            if t[i].0@ == key@ {
                assert(s[i].0@ == key@);
            }
        } else {
            assert(t[i] == s[i] && t[j] == s[j]);
        }
    }
    assert forall|k: Seq<char>| has_key(t, k) <==> (has_key(s, k) || k == key@) by {
        if has_key(s, k) {
            let i = choose|i: int| 0 <= i < s.len() && (#[trigger] s[i]).0@ == k;
            assert(t[i] == s[i]);
        }
        if k == key@ {
            assert(t[s.len() as int].0@ == k);
        }
        if has_key(t, k) && k != key@ {
            let i = choose|i: int| 0 <= i < t.len() && (#[trigger] t[i]).0@ == k;
            assert(s[i] == t[i]);
        }
    }
    assert forall|k: Seq<char>| #[trigger] keyed(t, f).contains_key(k) implies keyed(t, f)[k] == keyed(s, f).insert(key@, f(v))[k] by {
        if k == key@ {
            lemma_keyed_at(t, f, s.len() as int);
        } else {
            let i = choose|i: int| 0 <= i < s.len() && (#[trigger] s[i]).0@ == k;
            assert(t[i] == s[i]);
            lemma_keyed_at(t, f, i);
            lemma_keyed_at(s, f, i);
        }
    }
    assert(keyed(t, f) =~= keyed(s, f).insert(key@, f(v)));
}

/// Replacing the value of the entry at `i`, under the same key.
pub proof fn lemma_keyed_update<W, M>(s: Seq<(Symbol, W)>, f: spec_fn(W) -> M, i: int, key: Symbol, v: W)
    requires
        keys_distinct(s),
        0 <= i < s.len(),
        s[i].0@ == key@,
    ensures
        keys_distinct(s.update(i, (key, v))),
        keyed(s.update(i, (key, v)), f) == keyed(s, f).insert(key@, f(v)),
{
    let t = s.update(i, (key, v));
    assert forall|a: int, b: int| 0 <= a < b < t.len() implies (#[trigger] t[a]).0@ != (#[trigger] t[b]).0@ by {
        assert(t[a].0@ == s[a].0@);
        assert(t[b].0@ == s[b].0@);
    }
    assert forall|k: Seq<char>| has_key(t, k) <==> has_key(s, k) by {
        if has_key(s, k) {
            let j = choose|j: int| 0 <= j < s.len() && (#[trigger] s[j]).0@ == k;
            assert(t[j].0@ == k);
        }
        if has_key(t, k) {
            let j = choose|j: int| 0 <= j < t.len() && (#[trigger] t[j]).0@ == k;
            assert(s[j].0@ == k);
        }
    }
    lemma_keyed_at(s, f, i);
    assert forall|k: Seq<char>| #[trigger] keyed(t, f).contains_key(k) implies keyed(t, f)[k] == keyed(s, f).insert(key@, f(v))[k] by {
        let j = choose|j: int| 0 <= j < t.len() && (#[trigger] t[j]).0@ == k;
        lemma_keyed_at(t, f, j);
        if j != i {
            assert(t[j] == s[j]);
            lemma_keyed_at(s, f, j);
        }
    }
    assert(keyed(t, f) =~= keyed(s, f).insert(key@, f(v)));
}

/// Where the entry with key `key` is, if any.
pub(crate) fn position_of<W>(entries: &Vec<(Symbol, W)>, key: &Symbol) -> (r: Option<usize>)
    ensures
        match r {
            Some(i) => i < entries.len() && entries@[i as int].0@ == key@,
            None => !has_key(entries@, key@),
        },
{
    let mut i: usize = 0;
    while i < entries.len()
        invariant
            i <= entries.len(),
            forall|j: int| 0 <= j < i ==> (#[trigger] entries@[j]).0@ != key@,
        decreases entries.len() - i,
    {
        if entries[i].0 == *key {
            return Some(i);
        }
        i = i + 1;
    }
    None
}

// ---------------------------------------------------------------------------
// The graph
// ---------------------------------------------------------------------------

/// Patterns sorted into the roles a classifier gives them, one per identity, with the
/// occurrences that could not be reconciled set aside as conflicts.
pub struct PatternGraph<Extra, V> {
    pub pg_nodes: Vec<(Symbol, Pattern<V>)>,
    pub pg_relationships: Vec<(Symbol, Pattern<V>)>,
    pub pg_walks: Vec<(Symbol, Pattern<V>)>,
    pub pg_annotations: Vec<(Symbol, Pattern<V>)>,
    pub pg_other: Vec<(Symbol, (Extra, Pattern<V>))>,
    pub pg_conflicts: Vec<(Symbol, Vec<Pattern<V>>)>,
}

/// The contents of a pattern graph, by identity text.
pub struct GraphModel<Extra, V> {
    pub nodes: Map<Seq<char>, Tree<V>>,
    pub relationships: Map<Seq<char>, Tree<V>>,
    pub walks: Map<Seq<char>, Tree<V>>,
    pub annotations: Map<Seq<char>, Tree<V>>,
    pub other: Map<Seq<char>, (Extra, Tree<V>)>,
    pub conflicts: Map<Seq<char>, Seq<Tree<V>>>,
}

/// The tree of a pattern.
pub open spec fn tree_of<V>() -> spec_fn(Pattern<V>) -> Tree<V> {
    |p: Pattern<V>| p@
}

/// The payload and tree of an entry of other patterns.
pub open spec fn other_of<Extra, V>() -> spec_fn((Extra, Pattern<V>)) -> (Extra, Tree<V>) {
    |e: (Extra, Pattern<V>)| (e.0, e.1@)
}

/// The trees of a list of patterns.
pub open spec fn trees_of<V>() -> spec_fn(Vec<Pattern<V>>) -> Seq<Tree<V>> {
    |v: Vec<Pattern<V>>| patterns_forest(v@)
}

impl<Extra, V> View for PatternGraph<Extra, V> {
    type V = GraphModel<Extra, V>;

    open spec fn view(&self) -> GraphModel<Extra, V> {
        GraphModel {
            nodes: keyed(self.pg_nodes@, tree_of()),
            relationships: keyed(self.pg_relationships@, tree_of()),
            walks: keyed(self.pg_walks@, tree_of()),
            annotations: keyed(self.pg_annotations@, tree_of()),
            other: keyed(self.pg_other@, other_of()),
            conflicts: keyed(self.pg_conflicts@, trees_of()),
        }
    }
}

impl<Extra, V> PatternGraph<Extra, V> {
    /// Each collection holds at most one entry per identity.
    pub open spec fn well_formed(&self) -> bool {
        &&& keys_distinct(self.pg_nodes@)
        &&& keys_distinct(self.pg_relationships@)
        &&& keys_distinct(self.pg_walks@)
        &&& keys_distinct(self.pg_annotations@)
        &&& keys_distinct(self.pg_other@)
        &&& keys_distinct(self.pg_conflicts@)
    }

    /// The graph with nothing in it.
    pub fn empty() -> (r: Self)
        ensures
            r.well_formed(),
            r@.nodes == Map::<Seq<char>, Tree<V>>::empty(),
            r@.relationships == Map::<Seq<char>, Tree<V>>::empty(),
            r@.walks == Map::<Seq<char>, Tree<V>>::empty(),
            r@.annotations == Map::<Seq<char>, Tree<V>>::empty(),
            r@.other == Map::<Seq<char>, (Extra, Tree<V>)>::empty(),
            r@.conflicts == Map::<Seq<char>, Seq<Tree<V>>>::empty(),
    {
        let r = PatternGraph {
            pg_nodes: Vec::new(),
            pg_relationships: Vec::new(),
            pg_walks: Vec::new(),
            pg_annotations: Vec::new(),
            pg_other: Vec::new(),
            pg_conflicts: Vec::new(),
        };
        proof {
            assert(r@.nodes =~= Map::<Seq<char>, Tree<V>>::empty());
            assert(r@.relationships =~= Map::<Seq<char>, Tree<V>>::empty());
            assert(r@.walks =~= Map::<Seq<char>, Tree<V>>::empty());
            assert(r@.annotations =~= Map::<Seq<char>, Tree<V>>::empty());
            assert(r@.other =~= Map::<Seq<char>, (Extra, Tree<V>)>::empty());
            assert(r@.conflicts =~= Map::<Seq<char>, Seq<Tree<V>>>::empty());
        }
        r
    }
}

// ---------------------------------------------------------------------------
// Specification of merging
// ---------------------------------------------------------------------------

/// The pattern whose value is `existing`'s and whose one element is `incoming`.
pub open spec fn two_occurrences_tree<V>(existing: Tree<V>, incoming: Tree<V>) -> Tree<V> {
    Tree { value: existing.value, children: seq![incoming] }
}

/// What reconciling `t` with `policy` gives: `None` where it fails.
pub open spec fn reconcile_outcome<V: HasIdentity<V, Symbol> + Mergeable + PartialEq>(
    policy: ReconciliationPolicy<V::MergeStrategy>,
    t: Tree<V>,
) -> Option<Tree<V>> {
    if policy is Strict {
        if conflicting(t) {
            None
        } else {
            Some(reconciled(ReconciliationPolicy::FirstWriteWins, t))
        }
    } else {
        Some(reconciled(policy, t))
    }
}

/// The conflicts recorded for `i`.
pub open spec fn conflicts_for<V>(conflicts: Map<Seq<char>, Seq<Tree<V>>>, i: Seq<char>) -> Seq<Tree<V>> {
    if conflicts.contains_key(i) {
        conflicts[i]
    } else {
        Seq::empty()
    }
}

/// A collection and the conflicts after adding `p` to the collection: a new identity
/// is added; a known one is reconciled with what is there, and a failure keeps what
/// is there and records `p` as a conflict.
pub open spec fn with_entry<V: HasIdentity<V, Symbol> + Mergeable + PartialEq>(
    policy: ReconciliationPolicy<V::MergeStrategy>,
    m: Map<Seq<char>, Tree<V>>,
    conflicts: Map<Seq<char>, Seq<Tree<V>>>,
    p: Tree<V>,
) -> (Map<Seq<char>, Tree<V>>, Map<Seq<char>, Seq<Tree<V>>>) {
    let i = id_of(p.value);
    if !m.contains_key(i) {
        (m.insert(i, p), conflicts)
    } else {
        match reconcile_outcome(policy, two_occurrences_tree(m[i], p)) {
            None => (m, conflicts.insert(i, conflicts_for(conflicts, i).push(p))),
            Some(r) => (m.insert(i, r), conflicts),
        }
    }
}

/// As [`with_entry`], for the collection of other patterns, which keeps a payload.
pub open spec fn with_other_entry<Extra, V: HasIdentity<V, Symbol> + Mergeable + PartialEq>(
    policy: ReconciliationPolicy<V::MergeStrategy>,
    m: Map<Seq<char>, (Extra, Tree<V>)>,
    conflicts: Map<Seq<char>, Seq<Tree<V>>>,
    extra: Extra,
    p: Tree<V>,
) -> (Map<Seq<char>, (Extra, Tree<V>)>, Map<Seq<char>, Seq<Tree<V>>>) {
    let i = id_of(p.value);
    if !m.contains_key(i) {
        (m.insert(i, (extra, p)), conflicts)
    } else {
        match reconcile_outcome(policy, two_occurrences_tree(m[i].1, p)) {
            None => (m, conflicts.insert(i, conflicts_for(conflicts, i).push(p))),
            Some(r) => (m.insert(i, (extra, r)), conflicts),
        }
    }
}

// ---------------------------------------------------------------------------
// Insertion
// ---------------------------------------------------------------------------

/// The pattern whose value is a copy of `existing`'s and whose one element is `incoming`.
fn two_occurrences<V: Clone>(existing: &Pattern<V>, incoming: Pattern<V>) -> (r: Pattern<V>)
    ensures
        exact_clone::<V>() ==> r@ == two_occurrences_tree(existing@, incoming@),
{
    let ghost inc = incoming@;
    let mut elements: Vec<Pattern<V>> = Vec::new();
    elements.push(incoming);
    let r = Pattern { value: existing.value.clone(), elements };
    proof {
        lemma_pattern_view(r);
        lemma_pattern_view(*existing);
        assert(cloned(existing.value, r.value));
        assert(r@.children =~= seq![inc]);
    }
    r
}

/// The trees of a list of patterns, extended by one.
proof fn lemma_forest_push<V>(v: Seq<Pattern<V>>, p: Pattern<V>)
    ensures
        patterns_forest(v.push(p)) == patterns_forest(v).push(p@),
{
    assert(patterns_forest(v.push(p)) =~= patterns_forest(v).push(p@));
}

/// Records `p` as a conflict under `i`.
fn add_conflict<V>(conflicts: &mut Vec<(Symbol, Vec<Pattern<V>>)>, i: Symbol, p: Pattern<V>)
    requires
        keys_distinct(old(conflicts)@),
    ensures
        keys_distinct(final(conflicts)@),
        keyed(final(conflicts)@, trees_of()) == keyed(old(conflicts)@, trees_of()).insert(
            i@,
            conflicts_for(keyed(old(conflicts)@, trees_of()), i@).push(p@),
        ),
{
    match position_of(conflicts, &i) {
        None => {
            let ghost pv = p@;
            let mut list: Vec<Pattern<V>> = Vec::new();
            list.push(p);
            let ghost before = conflicts@;
            proof {
                lemma_forest_push(Seq::<Pattern<V>>::empty(), list@[0]);
                assert(Seq::<Pattern<V>>::empty().push(list@[0]) =~= list@);
                assert(patterns_forest(Seq::<Pattern<V>>::empty()) =~= Seq::<Tree<V>>::empty());
                lemma_keyed_push(before, trees_of(), i, list);
            }
            conflicts.push((i, list));
        },
        Some(k) => {
            let ghost before = conflicts@;
            let (key, mut list) = conflicts.remove(k);
            let ghost old_list = list@;
            list.push(p);
            conflicts.insert(k, (key, list));
            proof {
                assert(conflicts@ =~= before.update(k as int, (key, list)));
                lemma_keyed_at(before, trees_of(), k as int);
                lemma_forest_push(old_list, list@[old_list.len() as int]);
                assert(old_list.push(list@[old_list.len() as int]) =~= list@);
                lemma_keyed_update(before, trees_of(), k as int, key, list);
            }
        },
    }
}

/// Adds `p` to a collection (see [`with_entry`]).
fn insert_entry<V>(
    policy: &ReconciliationPolicy<V::MergeStrategy>,
    p: Pattern<V>,
    entries: &mut Vec<(Symbol, Pattern<V>)>,
    conflicts: &mut Vec<(Symbol, Vec<Pattern<V>>)>,
) where V: HasIdentity<V, Symbol> + Mergeable + Refinable + PartialEq + Clone
    requires
        keys_distinct(old(entries)@),
        keys_distinct(old(conflicts)@),
    ensures
        keys_distinct(final(entries)@),
        keys_distinct(final(conflicts)@),
        exact_clone::<V>() && V::obeys_eq_spec() ==> (
            keyed(final(entries)@, tree_of()),
            keyed(final(conflicts)@, trees_of()),
        ) == with_entry(
            *policy,
            keyed(old(entries)@, tree_of()),
            keyed(old(conflicts)@, trees_of()),
            p@,
        ),
{
    proof {
        lemma_pattern_view(p);
    }
    let i = V::identity(&p.value).clone();
    match position_of(entries, &i) {
        None => {
            let ghost before = entries@;
            proof {
                lemma_keyed_push(before, tree_of(), i, p);
            }
            entries.push((i, p));
        },
        Some(k) => {
            let ghost before = entries@;
            proof {
                lemma_keyed_at(before, tree_of(), k as int);
            }
            let copy = p.clone();
            let synthetic = two_occurrences(&entries[k].1, copy);
            proof {
                if exact_clone::<V>() {
                    crate::reconcile::lemma_cloned_tree_exact(p@, copy@);
                }
            }
            match reconcile(policy, &synthetic) {
                Err(_) => {
                    add_conflict(conflicts, i, p);
                },
                Ok(merged) => {
                    proof {
                        lemma_keyed_update(before, tree_of(), k as int, i, merged);
                    }
                    entries.set(k, (i, merged));
                },
            }
        },
    }
}

/// Adds `p` with its payload to the collection of other patterns (see
/// [`with_other_entry`]).
fn insert_other_entry<Extra, V>(
    policy: &ReconciliationPolicy<V::MergeStrategy>,
    extra: Extra,
    p: Pattern<V>,
    entries: &mut Vec<(Symbol, (Extra, Pattern<V>))>,
    conflicts: &mut Vec<(Symbol, Vec<Pattern<V>>)>,
) where V: HasIdentity<V, Symbol> + Mergeable + Refinable + PartialEq + Clone
    requires
        keys_distinct(old(entries)@),
        keys_distinct(old(conflicts)@),
    ensures
        keys_distinct(final(entries)@),
        keys_distinct(final(conflicts)@),
        exact_clone::<V>() && V::obeys_eq_spec() ==> (
            keyed(final(entries)@, other_of()),
            keyed(final(conflicts)@, trees_of()),
        ) == with_other_entry(
            *policy,
            keyed(old(entries)@, other_of()),
            keyed(old(conflicts)@, trees_of()),
            extra,
            p@,
        ),
{
    proof {
        lemma_pattern_view(p);
    }
    let i = V::identity(&p.value).clone();
    match position_of(entries, &i) {
        None => {
            let ghost before = entries@;
            proof {
                lemma_keyed_push(before, other_of(), i, (extra, p));
            }
            entries.push((i, (extra, p)));
        },
        Some(k) => {
            let ghost before = entries@;
            proof {
                lemma_keyed_at(before, other_of(), k as int);
            }
            let copy = p.clone();
            let synthetic = two_occurrences(&(entries[k].1).1, copy);
            proof {
                if exact_clone::<V>() {
                    crate::reconcile::lemma_cloned_tree_exact(p@, copy@);
                }
            }
            match reconcile(policy, &synthetic) {
                Err(_) => {
                    add_conflict(conflicts, i, p);
                },
                Ok(merged) => {
                    proof {
                        lemma_keyed_update(before, other_of(), k as int, i, (extra, merged));
                    }
                    entries.set(k, (i, (extra, merged)));
                },
            }
        },
    }
}

// ---------------------------------------------------------------------------
// Merging
// ---------------------------------------------------------------------------

/// The role the classifier gives `t`.
pub open spec fn class_of<Extra, V, C: Classify<Extra, V>>(cl: C, t: Tree<V>) -> GraphClass<Extra> {
    choose|c: GraphClass<Extra>| cl.classified(t, c)
}

/// The classifier gives each pattern one role only.
pub open spec fn deterministic<Extra, V, C: Classify<Extra, V>>(cl: C) -> bool {
    forall|t: Tree<V>, c1: GraphClass<Extra>, c2: GraphClass<Extra>|
        #[trigger] cl.classified(t, c1) && #[trigger] cl.classified(t, c2) ==> c1 == c2
}

/// The graph with nothing in it.
pub open spec fn empty_model<Extra, V>() -> GraphModel<Extra, V> {
    GraphModel {
        nodes: Map::empty(),
        relationships: Map::empty(),
        walks: Map::empty(),
        annotations: Map::empty(),
        other: Map::empty(),
        conflicts: Map::empty(),
    }
}

/// What merging `t` into `g` gives: `t` goes to the collection of its role, after
/// the endpoints of a relationship, the relationships of a walk and the element of an
/// annotation have been merged in turn.
pub open spec fn merged<Extra, V: HasIdentity<V, Symbol> + Mergeable + PartialEq, C: Classify<Extra, V>>(
    cl: C,
    policy: ReconciliationPolicy<V::MergeStrategy>,
    t: Tree<V>,
    g: GraphModel<Extra, V>,
) -> GraphModel<Extra, V>
    decreases t,
{
    match class_of(cl, t) {
        GraphClass::GNode => {
            let e = with_entry(policy, g.nodes, g.conflicts, t);
            GraphModel { nodes: e.0, conflicts: e.1, ..g }
        },
        GraphClass::GRelationship => {
            let g1 = if t.children.len() == 2 {
                merged(cl, policy, t.children[1], merged(cl, policy, t.children[0], g))
            } else {
                g
            };
            let e = with_entry(policy, g1.relationships, g1.conflicts, t);
            GraphModel { relationships: e.0, conflicts: e.1, ..g1 }
        },
        GraphClass::GWalk => {
            let g1 = merged_each(cl, policy, t.children, g);
            let e = with_entry(policy, g1.walks, g1.conflicts, t);
            GraphModel { walks: e.0, conflicts: e.1, ..g1 }
        },
        GraphClass::GAnnotation => {
            let g1 = if t.children.len() == 1 {
                merged(cl, policy, t.children[0], g)
            } else {
                g
            };
            let e = with_entry(policy, g1.annotations, g1.conflicts, t);
            GraphModel { annotations: e.0, conflicts: e.1, ..g1 }
        },
        GraphClass::GOther(extra) => {
            let e = with_other_entry(policy, g.other, g.conflicts, extra, t);
            GraphModel { other: e.0, conflicts: e.1, ..g }
        },
    }
}

/// What merging the trees of `s` into `g`, in order, gives.
pub open spec fn merged_each<Extra, V: HasIdentity<V, Symbol> + Mergeable + PartialEq, C: Classify<Extra, V>>(
    cl: C,
    policy: ReconciliationPolicy<V::MergeStrategy>,
    s: Seq<Tree<V>>,
    g: GraphModel<Extra, V>,
) -> GraphModel<Extra, V>
    decreases s,
{
    if s.len() == 0 {
        g
    } else {
        merged(cl, policy, s.last(), merged_each(cl, policy, s.drop_last(), g))
    }
}

/// Under exact cloning, a copy of a pattern denotes the same tree; in any case it has
/// as many nodes.
pub(crate) fn copy_of<V: Clone>(p: &Pattern<V>) -> (r: Pattern<V>)
    ensures
        crate::tree::tree_size(r@) == crate::tree::tree_size(p@),
        crate::tree::cloned_tree(p@, r@),
        exact_clone::<V>() ==> r@ == p@,
{
    let r = p.clone();
    proof {
        crate::tree::lemma_cloned_tree_shape(p@, r@);
        if exact_clone::<V>() {
            crate::reconcile::lemma_cloned_tree_exact(p@, r@);
        }
    }
    r
}

fn insert_node<Extra, V>(
    policy: &ReconciliationPolicy<V::MergeStrategy>,
    p: Pattern<V>,
    g: PatternGraph<Extra, V>,
) -> (r: PatternGraph<Extra, V>) where V: HasIdentity<V, Symbol> + Mergeable + Refinable + PartialEq + Clone
    requires
        g.well_formed(),
    ensures
        r.well_formed(),
        exact_clone::<V>() && V::obeys_eq_spec() ==> r@ == ({
            let e = with_entry(*policy, g@.nodes, g@.conflicts, p@);
            GraphModel { nodes: e.0, conflicts: e.1, ..g@ }
        }),
{
    let mut g = g;
    insert_entry(policy, p, &mut g.pg_nodes, &mut g.pg_conflicts);
    g
}

fn insert_relationship<Extra, V, C>(
    classifier: &C,
    policy: &ReconciliationPolicy<V::MergeStrategy>,
    p: Pattern<V>,
    g: PatternGraph<Extra, V>,
) -> (r: PatternGraph<Extra, V>) where
    V: HasIdentity<V, Symbol> + Mergeable + Refinable + PartialEq + Clone,
    C: Classify<Extra, V>,
    requires
        classifier.ready(),
        deterministic(*classifier),
        g.well_formed(),
    ensures
        r.well_formed(),
        exact_clone::<V>() && V::obeys_eq_spec() ==> r@ == ({
            let t = p@;
            let g1 = if t.children.len() == 2 {
                merged(*classifier, *policy, t.children[1], merged(*classifier, *policy, t.children[0], g@))
            } else {
                g@
            };
            let e = with_entry(*policy, g1.relationships, g1.conflicts, t);
            GraphModel { relationships: e.0, conflicts: e.1, ..g1 }
        }),
    decreases crate::tree::tree_size(p@), 0nat,
{
    proof {
        lemma_pattern_view(p);
    }
    let g1 = if p.elements.len() == 2 {
        let n1 = copy_of(&p.elements[0]);
        let n2 = copy_of(&p.elements[1]);
        proof {
            crate::tree::lemma_child_size(p@, 0);
            crate::tree::lemma_child_size(p@, 1);
        }
        let g0 = merge_with_policy(classifier, policy, n1, g);
        merge_with_policy(classifier, policy, n2, g0)
    } else {
        g
    };
    let mut g2 = g1;
    insert_entry(policy, p, &mut g2.pg_relationships, &mut g2.pg_conflicts);
    g2
}

fn insert_walk<Extra, V, C>(
    classifier: &C,
    policy: &ReconciliationPolicy<V::MergeStrategy>,
    p: Pattern<V>,
    g: PatternGraph<Extra, V>,
) -> (r: PatternGraph<Extra, V>) where
    V: HasIdentity<V, Symbol> + Mergeable + Refinable + PartialEq + Clone,
    C: Classify<Extra, V>,
    requires
        classifier.ready(),
        deterministic(*classifier),
        g.well_formed(),
    ensures
        r.well_formed(),
        exact_clone::<V>() && V::obeys_eq_spec() ==> r@ == ({
            let g1 = merged_each(*classifier, *policy, p@.children, g@);
            let e = with_entry(*policy, g1.walks, g1.conflicts, p@);
            GraphModel { walks: e.0, conflicts: e.1, ..g1 }
        }),
    decreases crate::tree::tree_size(p@), 0nat,
{
    proof {
        lemma_pattern_view(p);
    }
    let ghost t = p@;
    let mut acc = g;
    let mut j: usize = 0;
    while j < p.elements.len()
        invariant
            j <= p.elements.len(),
            t == p@,
            t.children.len() == p.elements.len(),
            forall|k: int| 0 <= k < p.elements.len() ==> #[trigger] t.children[k] == p.elements@[k]@,
            classifier.ready(),
            deterministic(*classifier),
            acc.well_formed(),
            exact_clone::<V>() && V::obeys_eq_spec() ==> acc@ == merged_each(*classifier, *policy, t.children.take(j as int), g@),
        decreases p.elements.len() - j,
    {
        let e = copy_of(&p.elements[j]);
        proof {
            crate::tree::lemma_child_size(t, j as int);
            crate::tree::lemma_take_step(t.children, j as int);
            assert(t.children.take(j + 1).drop_last() =~= t.children.take(j as int));
        }
        acc = merge_with_policy(classifier, policy, e, acc);
        j = j + 1;
    }
    proof {
        crate::tree::lemma_take_full(t.children);
    }
    let mut g2 = acc;
    insert_entry(policy, p, &mut g2.pg_walks, &mut g2.pg_conflicts);
    g2
}

fn insert_annotation<Extra, V, C>(
    classifier: &C,
    policy: &ReconciliationPolicy<V::MergeStrategy>,
    p: Pattern<V>,
    g: PatternGraph<Extra, V>,
) -> (r: PatternGraph<Extra, V>) where
    V: HasIdentity<V, Symbol> + Mergeable + Refinable + PartialEq + Clone,
    C: Classify<Extra, V>,
    requires
        classifier.ready(),
        deterministic(*classifier),
        g.well_formed(),
    ensures
        r.well_formed(),
        exact_clone::<V>() && V::obeys_eq_spec() ==> r@ == ({
            let t = p@;
            let g1 = if t.children.len() == 1 {
                merged(*classifier, *policy, t.children[0], g@)
            } else {
                g@
            };
            let e = with_entry(*policy, g1.annotations, g1.conflicts, t);
            GraphModel { annotations: e.0, conflicts: e.1, ..g1 }
        }),
    decreases crate::tree::tree_size(p@), 0nat,
{
    proof {
        lemma_pattern_view(p);
    }
    let g1 = if p.elements.len() == 1 {
        let inner = copy_of(&p.elements[0]);
        proof {
            crate::tree::lemma_child_size(p@, 0);
        }
        merge_with_policy(classifier, policy, inner, g)
    } else {
        g
    };
    let mut g2 = g1;
    insert_entry(policy, p, &mut g2.pg_annotations, &mut g2.pg_conflicts);
    g2
}

fn insert_other<Extra, V>(
    policy: &ReconciliationPolicy<V::MergeStrategy>,
    extra: Extra,
    p: Pattern<V>,
    g: PatternGraph<Extra, V>,
) -> (r: PatternGraph<Extra, V>) where V: HasIdentity<V, Symbol> + Mergeable + Refinable + PartialEq + Clone
    requires
        g.well_formed(),
    ensures
        r.well_formed(),
        exact_clone::<V>() && V::obeys_eq_spec() ==> r@ == ({
            let e = with_other_entry(*policy, g@.other, g@.conflicts, extra, p@);
            GraphModel { other: e.0, conflicts: e.1, ..g@ }
        }),
{
    let mut g = g;
    insert_other_entry(policy, extra, p, &mut g.pg_other, &mut g.pg_conflicts);
    g
}

/// Merges `p` into `g`: the classifier decides its role, and it is added to that
/// collection, reconciled under `policy` with what has its identity there already
/// (a failure records `p` as a conflict). The endpoints of a relationship, the
/// relationships of a walk and the element of an annotation are merged first.
pub fn merge_with_policy<Extra, V, C>(
    classifier: &C,
    policy: &ReconciliationPolicy<V::MergeStrategy>,
    p: Pattern<V>,
    g: PatternGraph<Extra, V>,
) -> (r: PatternGraph<Extra, V>) where
    V: HasIdentity<V, Symbol> + Mergeable + Refinable + PartialEq + Clone,
    C: Classify<Extra, V>,
    requires
        classifier.ready(),
        deterministic(*classifier),
        g.well_formed(),
    ensures
        r.well_formed(),
        exact_clone::<V>() && V::obeys_eq_spec() ==> r@ == merged(*classifier, *policy, p@, g@),
    decreases crate::tree::tree_size(p@), 1nat,
{
    let c = classifier.classify(&p);
    proof {
        assert(classifier.classified(p@, class_of(*classifier, p@)));
    }
    match c {
        GraphClass::GNode => insert_node(policy, p, g),
        GraphClass::GRelationship => insert_relationship(classifier, policy, p, g),
        GraphClass::GWalk => insert_walk(classifier, policy, p, g),
        GraphClass::GAnnotation => insert_annotation(classifier, policy, p, g),
        GraphClass::GOther(extra) => insert_other(policy, extra, p, g),
    }
}

/// Merges `p` into `g` with the last occurrence winning.
pub fn merge<Extra, V, C>(classifier: &C, p: Pattern<V>, g: PatternGraph<Extra, V>) -> (r: PatternGraph<Extra, V>) where
    V: HasIdentity<V, Symbol> + Mergeable + Refinable + PartialEq + Clone,
    C: Classify<Extra, V>,
    requires
        classifier.ready(),
        deterministic(*classifier),
        g.well_formed(),
    ensures
        r.well_formed(),
        exact_clone::<V>() && V::obeys_eq_spec() ==> r@ == merged(
            *classifier,
            ReconciliationPolicy::LastWriteWins,
            p@,
            g@,
        ),
{
    merge_with_policy(classifier, &ReconciliationPolicy::LastWriteWins, p, g)
}

/// The graph of `patterns`, merged in order into the empty graph with the last
/// occurrence winning.
pub fn from_patterns<Extra, V, C>(classifier: &C, patterns: Vec<Pattern<V>>) -> (r: PatternGraph<Extra, V>) where
    V: HasIdentity<V, Symbol> + Mergeable + Refinable + PartialEq + Clone,
    C: Classify<Extra, V>,
    requires
        classifier.ready(),
        deterministic(*classifier),
    ensures
        r.well_formed(),
        exact_clone::<V>() && V::obeys_eq_spec() ==> r@ == merged_each(
            *classifier,
            ReconciliationPolicy::LastWriteWins,
            patterns_forest(patterns@),
            empty_model(),
        ),
{
    from_patterns_with_policy(classifier, &ReconciliationPolicy::LastWriteWins, patterns)
}

/// The graph of `patterns`, merged in order into the empty graph under `policy`.
pub fn from_patterns_with_policy<Extra, V, C>(
    classifier: &C,
    policy: &ReconciliationPolicy<V::MergeStrategy>,
    patterns: Vec<Pattern<V>>,
) -> (r: PatternGraph<Extra, V>) where
    V: HasIdentity<V, Symbol> + Mergeable + Refinable + PartialEq + Clone,
    C: Classify<Extra, V>,
    requires
        classifier.ready(),
        deterministic(*classifier),
    ensures
        r.well_formed(),
        exact_clone::<V>() && V::obeys_eq_spec() ==> r@ == merged_each(
            *classifier,
            *policy,
            patterns_forest(patterns@),
            empty_model(),
        ),
{
    let ghost ts = patterns_forest(patterns@);
    let mut pending = crate::pattern::combine::reversed(patterns);
    let n = pending.len();
    let mut g = PatternGraph::empty();
    proof {
        assert(g@ == empty_model::<Extra, V>());
        assert(ts.take(0) =~= Seq::<Tree<V>>::empty());
    }
    let mut j: usize = 0;
    while pending.len() > 0
        invariant
            n == ts.len(),
            j + pending.len() == n,
            forall|k: int| 0 <= k < pending.len() ==> #[trigger] pending@[k]@ == ts[n - 1 - k],
            classifier.ready(),
            deterministic(*classifier),
            g.well_formed(),
            exact_clone::<V>() && V::obeys_eq_spec() ==> g@ == merged_each(*classifier, *policy, ts.take(j as int), empty_model()),
        decreases pending.len(),
    {
        let p = pending.pop().unwrap();
        proof {
            assert(p@ == ts[j as int]);
            crate::tree::lemma_take_step(ts, j as int);
            assert(ts.take(j + 1).drop_last() =~= ts.take(j as int));
        }
        g = merge_with_policy(classifier, policy, p, g);
        j = j + 1;
    }
    proof {
        assert(ts.take(n as int) =~= ts);
    }
    g
}

// ---------------------------------------------------------------------------
// Laws of merging
// ---------------------------------------------------------------------------

/// The identities held in the collection of role `c`.
pub open spec fn role_keys<Extra, V>(g: GraphModel<Extra, V>, c: GraphClass<Extra>) -> Set<Seq<char>> {
    match c {
        GraphClass::GNode => g.nodes.dom(),
        GraphClass::GRelationship => g.relationships.dom(),
        GraphClass::GWalk => g.walks.dom(),
        GraphClass::GAnnotation => g.annotations.dom(),
        GraphClass::GOther(_) => g.other.dom(),
    }
}

/// Every identity held in `g`, in every role, is still held after merging.
pub open spec fn keeps_roles<Extra, V>(g: GraphModel<Extra, V>, h: GraphModel<Extra, V>) -> bool {
    &&& g.nodes.dom().subset_of(h.nodes.dom())
    &&& g.relationships.dom().subset_of(h.relationships.dom())
    &&& g.walks.dom().subset_of(h.walks.dom())
    &&& g.annotations.dom().subset_of(h.annotations.dom())
    &&& g.other.dom().subset_of(h.other.dom())
}

proof fn lemma_keeps_roles_role_keys<Extra, V>(g: GraphModel<Extra, V>, h: GraphModel<Extra, V>, c: GraphClass<Extra>)
    requires
        keeps_roles(g, h),
    ensures
        role_keys(g, c).subset_of(role_keys(h, c)),
{
}

/// Adding an entry keeps every identity of the collection and holds the new one.
proof fn lemma_with_entry_keys<V: HasIdentity<V, Symbol> + Mergeable + PartialEq>(
    policy: ReconciliationPolicy<V::MergeStrategy>,
    m: Map<Seq<char>, Tree<V>>,
    conflicts: Map<Seq<char>, Seq<Tree<V>>>,
    p: Tree<V>,
)
    ensures
        m.dom().subset_of(with_entry(policy, m, conflicts, p).0.dom()),
        with_entry(policy, m, conflicts, p).0.contains_key(id_of(p.value)),
{
}

/// As [`lemma_with_entry_keys`], for the collection of other patterns.
proof fn lemma_with_other_entry_keys<Extra, V: HasIdentity<V, Symbol> + Mergeable + PartialEq>(
    policy: ReconciliationPolicy<V::MergeStrategy>,
    m: Map<Seq<char>, (Extra, Tree<V>)>,
    conflicts: Map<Seq<char>, Seq<Tree<V>>>,
    extra: Extra,
    p: Tree<V>,
)
    ensures
        m.dom().subset_of(with_other_entry(policy, m, conflicts, extra, p).0.dom()),
        with_other_entry(policy, m, conflicts, extra, p).0.contains_key(id_of(p.value)),
{
}

/// Merging `t` keeps every identity of `g` in its role and holds `t`'s identity in
/// the collection of `t`'s role.
proof fn lemma_merged_keys<Extra, V: HasIdentity<V, Symbol> + Mergeable + PartialEq, C: Classify<Extra, V>>(
    cl: C,
    policy: ReconciliationPolicy<V::MergeStrategy>,
    t: Tree<V>,
    g: GraphModel<Extra, V>,
)
    ensures
        keeps_roles(g, merged(cl, policy, t, g)),
        role_keys(merged(cl, policy, t, g), class_of(cl, t)).contains(id_of(t.value)),
    decreases t, 1nat,
{
    match class_of(cl, t) {
        GraphClass::GNode => {
            lemma_with_entry_keys(policy, g.nodes, g.conflicts, t);
        },
        GraphClass::GRelationship => {
            let g1 = if t.children.len() == 2 {
                lemma_merged_keys(cl, policy, t.children[0], g);
                let g0 = merged(cl, policy, t.children[0], g);
                lemma_merged_keys(cl, policy, t.children[1], g0);
                merged(cl, policy, t.children[1], g0)
            } else {
                g
            };
            lemma_with_entry_keys(policy, g1.relationships, g1.conflicts, t);
        },
        GraphClass::GWalk => {
            lemma_merged_each_keys(cl, policy, t.children, g);
            let g1 = merged_each(cl, policy, t.children, g);
            lemma_with_entry_keys(policy, g1.walks, g1.conflicts, t);
        },
        GraphClass::GAnnotation => {
            let g1 = if t.children.len() == 1 {
                lemma_merged_keys(cl, policy, t.children[0], g);
                merged(cl, policy, t.children[0], g)
            } else {
                g
            };
            lemma_with_entry_keys(policy, g1.annotations, g1.conflicts, t);
        },
        GraphClass::GOther(extra) => {
            lemma_with_other_entry_keys(policy, g.other, g.conflicts, extra, t);
        },
    }
}

/// Merging the trees of `s` in order keeps every identity of `g` in its role and
/// holds each tree's identity in the collection of its role.
proof fn lemma_merged_each_keys<Extra, V: HasIdentity<V, Symbol> + Mergeable + PartialEq, C: Classify<Extra, V>>(
    cl: C,
    policy: ReconciliationPolicy<V::MergeStrategy>,
    s: Seq<Tree<V>>,
    g: GraphModel<Extra, V>,
)
    ensures
        keeps_roles(g, merged_each(cl, policy, s, g)),
        forall|j: int| 0 <= j < s.len() ==> #[trigger] role_keys(merged_each(cl, policy, s, g), class_of(cl, s[j])).contains(
            id_of(s[j].value),
        ),
    decreases s, 0nat,
{
    if s.len() > 0 {
        lemma_merged_each_keys(cl, policy, s.drop_last(), g);
        let g0 = merged_each(cl, policy, s.drop_last(), g);
        lemma_merged_keys(cl, policy, s.last(), g0);
        let h = merged(cl, policy, s.last(), g0);
        assert forall|j: int| 0 <= j < s.len() implies #[trigger] role_keys(h, class_of(cl, s[j])).contains(id_of(s[j].value)) by {
            if j < s.len() - 1 {
                assert(s.drop_last()[j] == s[j]);
                lemma_keeps_roles_role_keys(g0, h, class_of(cl, s[j]));
            }
        }
    }
}

/// Merging an annotation with one element merges that element first: afterwards its
/// identity is held in the collection of the element's own role (an annotated node
/// that was absent becomes a node of the graph), and everything `g` held stays held.
pub proof fn lemma_annotation_merges_its_element<Extra, V: HasIdentity<V, Symbol> + Mergeable + PartialEq, C: Classify<Extra, V>>(
    cl: C,
    policy: ReconciliationPolicy<V::MergeStrategy>,
    t: Tree<V>,
    g: GraphModel<Extra, V>,
    r: GraphModel<Extra, V>,
)
    requires
        r == merged(cl, policy, t, g),
        class_of(cl, t) is GAnnotation,
        t.children.len() == 1,
    ensures
        role_keys(r, class_of(cl, t.children[0])).contains(id_of(t.children[0].value)),
        r.annotations.contains_key(id_of(t.value)),
        class_of(cl, t.children[0]) is GNode ==> r.nodes.contains_key(id_of(t.children[0].value)),
        keeps_roles(g, r),
{
    lemma_merged_keys(cl, policy, t, g);
    let g1 = merged(cl, policy, t.children[0], g);
    lemma_merged_keys(cl, policy, t.children[0], g);
    lemma_with_entry_keys(policy, g1.annotations, g1.conflicts, t);
}

/// Merging a relationship with two elements merges both endpoints first: afterwards
/// each endpoint's identity is held in the collection of its own role.
pub proof fn lemma_relationship_merges_its_endpoints<Extra, V: HasIdentity<V, Symbol> + Mergeable + PartialEq, C: Classify<Extra, V>>(
    cl: C,
    policy: ReconciliationPolicy<V::MergeStrategy>,
    t: Tree<V>,
    g: GraphModel<Extra, V>,
    r: GraphModel<Extra, V>,
)
    requires
        r == merged(cl, policy, t, g),
        class_of(cl, t) is GRelationship,
        t.children.len() == 2,
    ensures
        role_keys(r, class_of(cl, t.children[0])).contains(id_of(t.children[0].value)),
        role_keys(r, class_of(cl, t.children[1])).contains(id_of(t.children[1].value)),
        r.relationships.contains_key(id_of(t.value)),
        keeps_roles(g, r),
{
    lemma_merged_keys(cl, policy, t, g);
    lemma_merged_keys(cl, policy, t.children[0], g);
    let g0 = merged(cl, policy, t.children[0], g);
    lemma_merged_keys(cl, policy, t.children[1], g0);
    let g1 = merged(cl, policy, t.children[1], g0);
    lemma_keeps_roles_role_keys(g0, g1, class_of(cl, t.children[0]));
    lemma_with_entry_keys(policy, g1.relationships, g1.conflicts, t);
    lemma_keeps_roles_role_keys(g1, r, class_of(cl, t.children[0]));
    lemma_keeps_roles_role_keys(g1, r, class_of(cl, t.children[1]));
}

/// Merging a walk merges each of its elements first: afterwards each element's
/// identity is held in the collection of its own role.
pub proof fn lemma_walk_merges_its_elements<Extra, V: HasIdentity<V, Symbol> + Mergeable + PartialEq, C: Classify<Extra, V>>(
    cl: C,
    policy: ReconciliationPolicy<V::MergeStrategy>,
    t: Tree<V>,
    g: GraphModel<Extra, V>,
    r: GraphModel<Extra, V>,
)
    requires
        r == merged(cl, policy, t, g),
        class_of(cl, t) is GWalk,
    ensures
        forall|j: int| 0 <= j < t.children.len() ==> #[trigger] role_keys(r, class_of(cl, t.children[j])).contains(
            id_of(t.children[j].value),
        ),
        r.walks.contains_key(id_of(t.value)),
        keeps_roles(g, r),
{
    lemma_merged_keys(cl, policy, t, g);
    lemma_merged_each_keys(cl, policy, t.children, g);
    let g1 = merged_each(cl, policy, t.children, g);
    lemma_with_entry_keys(policy, g1.walks, g1.conflicts, t);
    assert forall|j: int| 0 <= j < t.children.len() implies #[trigger] role_keys(r, class_of(cl, t.children[j])).contains(
        id_of(t.children[j].value),
    ) by {
        lemma_keeps_roles_role_keys(g1, r, class_of(cl, t.children[j]));
    }
}

/// Merging a node touches only the nodes (and the conflicts): every other collection is
/// unchanged, every other identity keeps its node, and a node of a new identity is
/// stored as it is.
pub proof fn lemma_node_merge_touches_only_its_entry<Extra, V: HasIdentity<V, Symbol> + Mergeable + PartialEq, C: Classify<Extra, V>>(
    cl: C,
    policy: ReconciliationPolicy<V::MergeStrategy>,
    t: Tree<V>,
    g: GraphModel<Extra, V>,
    r: GraphModel<Extra, V>,
)
    requires
        r == merged(cl, policy, t, g),
        class_of(cl, t) is GNode,
    ensures
        r.relationships == g.relationships,
        r.walks == g.walks,
        r.annotations == g.annotations,
        r.other == g.other,
        r.nodes.contains_key(id_of(t.value)),
        !g.nodes.contains_key(id_of(t.value)) ==> r.nodes[id_of(t.value)] == t,
        forall|k: Seq<char>| #[trigger] g.nodes.contains_key(k) && k != id_of(t.value) ==> r.nodes.contains_key(k)
            && r.nodes[k] == g.nodes[k],
        r.nodes.dom() == g.nodes.dom().insert(id_of(t.value)),
{
    lemma_with_entry_keys(policy, g.nodes, g.conflicts, t);
    assert(r.nodes.dom() =~= g.nodes.dom().insert(id_of(t.value)));
}

} // verus!
