use vstd::prelude::*;

use vstd::std_specs::cmp::PartialEqSpec;

use crate::pattern::{lemma_pattern_view, Pattern};
use crate::subject::{holds_symbol, symbol_texts, Symbol};
use crate::tree::{self, tree_subtrees, Tree};

pub mod laws;
pub mod subject_merge;

verus! {

// ---------------------------------------------------------------------------
// Capabilities of the values being reconciled
// ---------------------------------------------------------------------------

/// Values that carry an identity of type `I`.
/// Each specification function has a default body: one fixed value, the same for
/// every argument. An implementation that keeps a default (as one written outside
/// Verus must) meets the methods' contracts only where its results are that value, so
/// what is proved of the library's functions carries over to it no further than that.
pub trait HasIdentity<V, I> {
    /// The identity of `v`.
    closed spec fn identity_of(v: V) -> I {
        vstd::pervasive::arbitrary()
    }

    /// The identity of `v`.
    fn identity(v: &V) -> (r: &I)
        ensures
            *r == Self::identity_of(*v),
    ;
}

/// Values that two occurrences of one identity can be merged into.
/// Each specification function has a default body: one fixed value, the same for
/// every argument. An implementation that keeps a default (as one written outside
/// Verus must) meets the methods' contracts only where its results are that value, so
/// what is proved of the library's functions carries over to it no further than that.
pub trait Mergeable: Sized {
    /// How to merge.
    type MergeStrategy;

    /// What merging `a` and `b` with `strategy` gives.
    closed spec fn merge_spec(strategy: Self::MergeStrategy, a: Self, b: Self) -> Self {
        vstd::pervasive::arbitrary()
    }

    /// Merges `a` with `b`, `b` winning where `strategy` says so.
    fn merge(strategy: &Self::MergeStrategy, a: Self, b: Self) -> (r: Self)
        ensures
            r == Self::merge_spec(*strategy, a, b),
    ;
}

/// Values ordered by refinement: a value refines another when it holds at least
/// the same information.
/// Each specification function has a default body: one fixed value, the same for
/// every argument. An implementation that keeps a default (as one written outside
/// Verus must) meets the methods' contracts only where its results are that value, so
/// what is proved of the library's functions carries over to it no further than that.
pub trait Refinable: Sized {
    /// `sup` holds at least what `sub` holds.
    closed spec fn refines(sup: Self, sub: Self) -> bool {
        vstd::pervasive::arbitrary()
    }

    /// Whether `sup` holds at least what `sub` holds.
    fn is_refinement_of(sup: &Self, sub: &Self) -> (r: bool)
        ensures
            r == Self::refines(*sup, *sub),
    ;
}

// ---------------------------------------------------------------------------
// Policies
// ---------------------------------------------------------------------------

/// How occurrences of one identity are resolved.
#[derive(Debug, Clone, PartialEq, Eq)]
pub enum ReconciliationPolicy<S> {
    /// The last occurrence's value wins; elements are unioned by identity.
    LastWriteWins,
    /// The first occurrence's value wins; elements are unioned by identity.
    FirstWriteWins,
    /// Values are merged with the strategy `S`; elements per the element strategy.
    Merge(ElementMergeStrategy, S),
    /// Occurrences must agree; otherwise reconciliation fails.
    Strict,
}

/// How the element lists of the occurrences of one identity are combined.
#[derive(Debug, Clone, Copy, PartialEq, Eq, Structural)]
pub enum ElementMergeStrategy {
    /// The last occurrence's elements.
    ReplaceElements,
    /// All elements, in order.
    AppendElements,
    /// The first element of each identity, in order of first appearance.
    UnionElements,
}

/// How two subjects are merged: labels and properties.
#[derive(Debug, Clone, Copy, PartialEq, Eq, Structural)]
pub struct SubjectMergeStrategy {
    pub label_merge: LabelMerge,
    pub property_merge: PropertyMerge,
}

/// How label sets are merged.
#[derive(Debug, Clone, Copy, PartialEq, Eq, Structural)]
pub enum LabelMerge {
    UnionLabels,
    IntersectLabels,
    ReplaceLabels,
}

/// How property records are merged.
#[derive(Debug, Clone, Copy, PartialEq, Eq, Structural)]
pub enum PropertyMerge {
    ReplaceProperties,
    ShallowMerge,
    DeepMerge,
}

/// Labels unioned, properties merged shallowly with the later value winning.
pub fn default_subject_merge_strategy() -> (r: SubjectMergeStrategy)
    ensures
        r.label_merge == LabelMerge::UnionLabels,
        r.property_merge == PropertyMerge::ShallowMerge,
{
    SubjectMergeStrategy {
        label_merge: LabelMerge::UnionLabels,
        property_merge: PropertyMerge::ShallowMerge,
    }
}

/// Why reconciliation failed.
#[derive(Debug, Clone, PartialEq)]
pub struct ReconcileError {
    pub message: String,
}

// ---------------------------------------------------------------------------
// Specification
// ---------------------------------------------------------------------------

/// The text of a value's identity.
pub open spec fn id_of<V: HasIdentity<V, Symbol>>(v: V) -> Seq<char> {
    V::identity_of(v)@
}

/// The identities of the roots of a sequence of trees.
pub open spec fn ids_of<V: HasIdentity<V, Symbol>>(s: Seq<Tree<V>>) -> Seq<Seq<char>> {
    s.map_values(|c: Tree<V>| id_of(c.value))
}

/// All identities occurring in `t`.
pub open spec fn identities<V: HasIdentity<V, Symbol>>(t: Tree<V>) -> Set<Seq<char>> {
    ids_of(tree_subtrees(t)).to_set()
}

/// Whether a tree's root has identity `x`.
pub open spec fn has_id<V: HasIdentity<V, Symbol>>(x: Seq<char>) -> spec_fn(Tree<V>) -> bool {
    |s: Tree<V>| id_of(s.value) == x
}

/// The subtrees of `t` whose root has identity `x`, in pre-order.
pub open spec fn occurrences<V: HasIdentity<V, Symbol>>(t: Tree<V>, x: Seq<char>) -> Seq<Tree<V>> {
    tree_subtrees(t).filter(has_id(x))
}

/// The trees that a sequence of pattern references denotes.
pub open spec fn ref_trees<V>(s: Seq<&Pattern<V>>) -> Seq<Tree<V>> {
    s.map_values(|r: &Pattern<V>| r@)
}


/// The members of `s` without repetitions, each where it first appears.
pub open spec fn first_appearances(s: Seq<Seq<char>>) -> Seq<Seq<char>>
    decreases s.len(),
{
    if s.len() == 0 {
        Seq::empty()
    } else if s.drop_last().contains(s.last()) {
        first_appearances(s.drop_last())
    } else {
        first_appearances(s.drop_last()).push(s.last())
    }
}

/// Value fold of the occurrences: the first merged in turn with each later one.
pub open spec fn merged_values<V: Mergeable>(strategy: V::MergeStrategy, os: Seq<Tree<V>>) -> V
    decreases os.len(),
{
    if os.len() <= 1 {
        os[0].value
    } else {
        V::merge_spec(strategy, merged_values(strategy, os.drop_last()), os.last().value)
    }
}

/// The value that the occurrences `os` of one identity resolve to.
pub open spec fn resolved_value<V: Mergeable>(
    policy: ReconciliationPolicy<V::MergeStrategy>,
    os: Seq<Tree<V>>,
) -> V {
    match policy {
        ReconciliationPolicy::LastWriteWins => os.last().value,
        ReconciliationPolicy::Merge(_, s) => merged_values(s, os),
        _ => os[0].value,
    }
}

/// The identities of the elements that the occurrences `os` of one identity resolve to.
pub open spec fn resolved_children<V: HasIdentity<V, Symbol>, S>(
    policy: ReconciliationPolicy<S>,
    os: Seq<Tree<V>>,
) -> Seq<Seq<char>> {
    let all = os.map_values(|o: Tree<V>| ids_of(o.children)).flatten_alt();
    match policy {
        ReconciliationPolicy::Merge(ElementMergeStrategy::ReplaceElements, _) => if os.len() == 0 {
            Seq::empty()
        } else {
            ids_of(os.last().children)
        },
        ReconciliationPolicy::Merge(ElementMergeStrategy::AppendElements, _) => all,
        _ => first_appearances(all),
    }
}

/// The tree built by walking a graph of identities depth first from `x`: the node
/// takes the value that `g` gives `x`, and each of `x`'s child identities not yet
/// visited becomes a child, walked in turn. Also gives the identities visited after.
pub open spec fn walked<V>(
    ids: Set<Seq<char>>,
    g: spec_fn(Seq<char>) -> (V, Seq<Seq<char>>),
    visited: Set<Seq<char>>,
    x: Seq<char>,
) -> (Tree<V>, Set<Seq<char>>)
    decreases ids.difference(visited).len(), 0nat, 0nat,
    when ids.finite()
{
    if ids.contains(x) && !visited.contains(x) {
        let v2 = visited.insert(x);
        proof {
            ids.lemma_set_insert_diff_decreases(visited, x);
        }
        let kids = walked_children(ids, g, v2, g(x).1, g(x).1.len());
        (Tree { value: g(x).0, children: kids.0 }, kids.1)
    } else {
        (Tree { value: g(x).0, children: Seq::empty() }, visited)
    }
}

/// The children walked from the first `n` identities of `cs`, starting with
/// `visited`; also the identities visited after.
pub open spec fn walked_children<V>(
    ids: Set<Seq<char>>,
    g: spec_fn(Seq<char>) -> (V, Seq<Seq<char>>),
    visited: Set<Seq<char>>,
    cs: Seq<Seq<char>>,
    n: nat,
) -> (Seq<Tree<V>>, Set<Seq<char>>)
    decreases ids.difference(visited).len(), 1nat, n,
    when ids.finite()
{
    if n == 0 || n > cs.len() {
        (Seq::empty(), visited)
    } else {
        let before = walked_children(ids, g, visited, cs, (n - 1) as nat);
        let seen = before.1.union(visited);
        proof {
            vstd::set_lib::lemma_len_subset(ids.difference(seen), ids.difference(visited));
        }
        if seen.contains(cs[n - 1]) {
            (before.0, seen)
        } else {
            let kid = walked(ids, g, seen, cs[n - 1]);
            (before.0.push(kid.0), kid.1.union(seen))
        }
    }
}

/// The graph of identities that reconciling `t` with `policy` resolves to.
pub open spec fn resolution<V: HasIdentity<V, Symbol> + Mergeable>(
    policy: ReconciliationPolicy<V::MergeStrategy>,
    t: Tree<V>,
) -> spec_fn(Seq<char>) -> (V, Seq<Seq<char>>) {
    |x: Seq<char>|
        (
            resolved_value(policy, occurrences(t, x)),
            resolved_children(policy, occurrences(t, x)),
        )
}

/// What reconciling `t` with a policy other than `Strict` gives.
pub open spec fn reconciled<V: HasIdentity<V, Symbol> + Mergeable>(
    policy: ReconciliationPolicy<V::MergeStrategy>,
    t: Tree<V>,
) -> Tree<V> {
    walked(identities(t), resolution(policy, t), Set::empty(), id_of(t.value)).0
}

/// Cloning a `V` gives an equal value.
pub open spec fn exact_clone<V: Clone>() -> bool {
    forall|a: V, b: V| #[trigger] cloned(a, b) ==> a == b
}

/// Where cloning values is exact, a cloned tree equals the tree it was cloned from.
pub proof fn lemma_cloned_tree_exact<V: Clone>(a: Tree<V>, b: Tree<V>)
    requires
        exact_clone::<V>(),
        tree::cloned_tree(a, b),
    ensures
        a == b,
    decreases a,
{
    assert forall|i: int| 0 <= i < a.children.len() implies a.children[i] == b.children[i] by {
        lemma_cloned_tree_exact(a.children[i], b.children[i]);
    }
    assert(a.children =~= b.children);
}

// ---------------------------------------------------------------------------
// Lemmas
// ---------------------------------------------------------------------------

/// `first_appearances` keeps exactly the members of `s`, each once.
pub proof fn lemma_first_appearances(s: Seq<Seq<char>>)
    ensures
        forall|x: Seq<char>| first_appearances(s).contains(x) <==> s.contains(x),
        first_appearances(s).no_duplicates(),
    decreases s.len(),
{
    if s.len() > 0 {
        lemma_first_appearances(s.drop_last());
        let p = first_appearances(s.drop_last());
        assert forall|x: Seq<char>| first_appearances(s).contains(x) <==> s.contains(x) by {
            if s.contains(x) {
                let j = choose|j: int| 0 <= j < s.len() && s[j] == x;
                if j < s.len() - 1 {
                    assert(s.drop_last()[j] == x);
                }
            }
            if s.drop_last().contains(x) {
                let j = choose|j: int| 0 <= j < s.drop_last().len() && s.drop_last()[j] == x;
                assert(s[j] == x);
            }
            if !s.drop_last().contains(s.last()) {
                assert(p.push(s.last())[p.len() as int] == s.last());
                if p.push(s.last()).contains(x) {
                    let j = choose|j: int| 0 <= j < p.push(s.last()).len() && p.push(s.last())[j] == x;
                    if j < p.len() {
                        assert(p[j] == x);
                    }
                }
                if p.contains(x) {
                    let j = choose|j: int| 0 <= j < p.len() && p[j] == x;
                    assert(p.push(s.last())[j] == x);
                }
            }
        }
    }
}

/// Extending a sequence by one element extends its trees by that element's tree.
pub proof fn lemma_ref_trees_push<V>(s: Seq<&Pattern<V>>, r: &Pattern<V>)
    ensures
        ref_trees(s.push(r)) == ref_trees(s).push(r@),
{
    assert(ref_trees(s.push(r)) =~= ref_trees(s).push(r@));
}

// ---------------------------------------------------------------------------
// Implementation
// ---------------------------------------------------------------------------

/// Appends the sub-patterns of `p` (itself first, pre-order) to `out`.
fn collect_recursive<'a, V>(p: &'a Pattern<V>, out: &mut Vec<&'a Pattern<V>>)
    ensures
        ref_trees(final(out)@) == ref_trees(old(out)@) + tree_subtrees(p@),
    decreases p,
{
    proof {
        lemma_pattern_view(*p);
    }
    let ghost start = ref_trees(out@);
    out.push(p);
    proof {
        lemma_ref_trees_push(old(out)@, p);
        assert(seq![p@] + tree::forest_subtrees(p@.children.take(0)) =~= seq![p@]);
    }
    let mut i: usize = 0;
    while i < p.elements.len()
        invariant
            i <= p.elements.len(),
            p@.children.len() == p.elements.len(),
            forall|k: int| 0 <= k < p.elements.len() ==> #[trigger] p@.children[k] == p.elements@[k]@,
            ref_trees(out@) == start + (seq![p@] + tree::forest_subtrees(p@.children.take(i as int))),
        decreases p.elements.len() - i,
    {
        collect_recursive(&p.elements[i], out);
        proof {
            tree::lemma_take_step(p@.children, i as int);
            assert(p@.children.take(i + 1).drop_last() =~= p@.children.take(i as int));
            assert(tree::forest_subtrees(p@.children.take(i + 1)) == tree::forest_subtrees(p@.children.take(i as int)) + tree_subtrees(p@.children[i as int]));
            assert(ref_trees(out@) =~= start + (seq![p@] + tree::forest_subtrees(p@.children.take(i + 1))));
        }
        i = i + 1;
    }
    proof {
        tree::lemma_take_full(p@.children);
    }
}

/// The identities of the patterns in `subs`, each once, in order of first appearance.
fn distinct_identities<V: HasIdentity<V, Symbol>>(subs: &Vec<&Pattern<V>>) -> (r: Vec<Symbol>)
    ensures
        symbol_texts(r@) == first_appearances(ids_of(ref_trees(subs@))),
{
    let mut r: Vec<Symbol> = Vec::new();
    let mut i: usize = 0;
    while i < subs.len()
        invariant
            i <= subs.len(),
            symbol_texts(r@) == first_appearances(ids_of(ref_trees(subs@.take(i as int)))),
        decreases subs.len() - i,
    {
        let id = V::identity(&subs[i].value);
        let ghost pre = ids_of(ref_trees(subs@.take(i as int)));
        let ghost post = ids_of(ref_trees(subs@.take(i + 1)));
        proof {
            tree::lemma_take_step(subs@, i as int);
            lemma_ref_trees_push(subs@.take(i as int), subs@[i as int]);
            assert(post =~= pre.push(id@));
            assert(post.drop_last() =~= pre);
            lemma_first_appearances(pre);
        }
        if !holds_symbol(&r, id) {
            let ghost before = r@;
            r.push(id.clone());
            proof {
                assert(symbol_texts(r@) =~= symbol_texts(before).push(id@));
            }
        }
        proof {
            assert(symbol_texts(r@) == first_appearances(post));
        }
        i = i + 1;
    }
    proof {
        tree::lemma_take_full(subs@);
    }
    r
}

/// The patterns in `subs` whose identity is `x`, in order.
fn occurrences_in<'a, V: HasIdentity<V, Symbol>>(subs: &Vec<&'a Pattern<V>>, x: &Symbol) -> (r: Vec<&'a Pattern<V>>)
    ensures
        ref_trees(r@) == ref_trees(subs@).filter(has_id(x@)),
{
    let mut r: Vec<&'a Pattern<V>> = Vec::new();
    let mut i: usize = 0;
    while i < subs.len()
        invariant
            i <= subs.len(),
            ref_trees(r@) == ref_trees(subs@.take(i as int)).filter(has_id(x@)),
        decreases subs.len() - i,
    {
        let ghost pre = ref_trees(subs@.take(i as int));
        proof {
            tree::lemma_take_step(subs@, i as int);
            lemma_ref_trees_push(subs@.take(i as int), subs@[i as int]);
            pre.lemma_filter_push(subs@[i as int]@, has_id(x@));
            lemma_pattern_view(*subs@[i as int]);
        }
        let id = V::identity(&subs[i].value);
        proof {
            assert(subs@[i as int]@.value == subs@[i as int].value);
            assert(has_id(x@)(subs@[i as int]@) == (id@ == x@));
            assert(ref_trees(subs@.take(i + 1)) == pre.push(subs@[i as int]@));
        }
        if *id == *x {
            let ghost before = r@;
            r.push(subs[i]);
            proof {
                lemma_ref_trees_push(before, subs@[i as int]);
            }
        }
        i = i + 1;
    }
    proof {
        tree::lemma_take_full(subs@);
    }
    r
}

/// The identity lists of the children of each tree.
pub open spec fn child_id_lists<V: HasIdentity<V, Symbol>>(os: Seq<Tree<V>>) -> Seq<Seq<Seq<char>>> {
    os.map_values(|o: Tree<V>| ids_of(o.children))
}

/// The identities of the elements of `p`, in order.
fn element_identities<V: HasIdentity<V, Symbol>>(p: &Pattern<V>) -> (r: Vec<Symbol>)
    ensures
        symbol_texts(r@) == ids_of(p@.children),
{
    proof {
        lemma_pattern_view(*p);
    }
    let mut r: Vec<Symbol> = Vec::new();
    let mut i: usize = 0;
    while i < p.elements.len()
        invariant
            i <= p.elements.len(),
            p@.children.len() == p.elements.len(),
            forall|k: int| 0 <= k < p.elements.len() ==> #[trigger] p@.children[k] == p.elements@[k]@,
            symbol_texts(r@) == ids_of(p@.children.take(i as int)),
        decreases p.elements.len() - i,
    {
        let id = V::identity(&p.elements[i].value);
        let ghost before = r@;
        r.push(id.clone());
        proof {
            lemma_pattern_view(p.elements@[i as int]);
            tree::lemma_take_step(p@.children, i as int);
            assert(p@.children[i as int].value == p.elements@[i as int].value);
            assert(ids_of(p@.children.take(i + 1)) =~= ids_of(p@.children.take(i as int)).push(id@));
            assert(symbol_texts(r@) =~= symbol_texts(before).push(id@));
        }
        i = i + 1;
    }
    proof {
        tree::lemma_take_full(p@.children);
    }
    r
}

/// The identities of the elements of all of `occs`, in order: all of them, or, with
/// `union`, each once where it first appears.
fn gathered_children<V: HasIdentity<V, Symbol>>(occs: &Vec<&Pattern<V>>, union: bool) -> (r: Vec<Symbol>)
    ensures
        symbol_texts(r@) == (if union {
            first_appearances(child_id_lists(ref_trees(occs@)).flatten_alt())
        } else {
            child_id_lists(ref_trees(occs@)).flatten_alt()
        }),
{
    let ghost os = ref_trees(occs@);
    let ghost mut all: Seq<Seq<char>> = Seq::empty();
    let mut r: Vec<Symbol> = Vec::new();
    let mut j: usize = 0;
    proof {
        assert(child_id_lists(os.take(0)) =~= Seq::<Seq<Seq<char>>>::empty());
    }
    while j < occs.len()
        invariant
            j <= occs.len(),
            os == ref_trees(occs@),
            all == child_id_lists(os.take(j as int)).flatten_alt(),
            symbol_texts(r@) == (if union { first_appearances(all) } else { all }),
        decreases occs.len() - j,
    {
        let o = occs[j];
        let ids = element_identities(o);
        let ghost all0 = all;
        let mut k: usize = 0;
        proof {
            assert(ids@.take(0) =~= Seq::<Symbol>::empty());
            assert(all0 + symbol_texts(ids@.take(0)) =~= all0);
        }
        while k < ids.len()
            invariant
                k <= ids.len(),
                all == all0 + symbol_texts(ids@.take(k as int)),
                symbol_texts(r@) == (if union { first_appearances(all) } else { all }),
            decreases ids.len() - k,
        {
            let id = &ids[k];
            let ghost prev = all;
            proof {
                lemma_first_appearances(prev);
                tree::lemma_take_step(ids@, k as int);
                assert(symbol_texts(ids@.take(k + 1)) =~= symbol_texts(ids@.take(k as int)).push(id@));
                all = all.push(id@);
                assert(all.drop_last() =~= prev);
            }
            if union {
                if !holds_symbol(&r, id) {
                    let ghost before = r@;
                    r.push(id.clone());
                    proof {
                        assert(symbol_texts(r@) =~= symbol_texts(before).push(id@));
                    }
                }
            } else {
                let ghost before = r@;
                r.push(id.clone());
                proof {
                    assert(symbol_texts(r@) =~= symbol_texts(before).push(id@));
                }
            }
            k = k + 1;
        }
        proof {
            tree::lemma_take_full(ids@);
            tree::lemma_take_step(occs@, j as int);
            lemma_ref_trees_push(occs@.take(j as int), occs@[j as int]);
            assert(ref_trees(occs@).take(j + 1) =~= ref_trees(occs@.take(j + 1)));
            assert(ref_trees(occs@).take(j as int) =~= ref_trees(occs@.take(j as int)));
            let l1 = child_id_lists(os.take(j + 1));
            assert(l1.drop_last() =~= child_id_lists(os.take(j as int)));
            assert(l1.last() == ids_of(o@.children));
            assert(all == l1.flatten_alt());
        }
        j = j + 1;
    }
    proof {
        assert(os.take(occs.len() as int) =~= os);
    }
    r
}

/// The identities of the elements that the occurrences resolve to under `policy`.
fn merge_elements<V: HasIdentity<V, Symbol> + Mergeable>(
    policy: &ReconciliationPolicy<V::MergeStrategy>,
    occs: &Vec<&Pattern<V>>,
) -> (r: Vec<Symbol>)
    ensures
        symbol_texts(r@) == resolved_children(*policy, ref_trees(occs@)),
{
    match policy {
        ReconciliationPolicy::Merge(ElementMergeStrategy::ReplaceElements, _) => {
            if occs.len() == 0 {
                let r: Vec<Symbol> = Vec::new();
                proof {
                    assert(symbol_texts(r@) =~= Seq::<Seq<char>>::empty());
                }
                r
            } else {
                element_identities(occs[occs.len() - 1])
            }
        },
        ReconciliationPolicy::Merge(ElementMergeStrategy::AppendElements, _) => gathered_children(occs, false),
        _ => gathered_children(occs, true),
    }
}

/// The value that the occurrences resolve to under `policy`.
fn reconcile_occurrences<V: HasIdentity<V, Symbol> + Mergeable + Clone>(
    policy: &ReconciliationPolicy<V::MergeStrategy>,
    occs: &Vec<&Pattern<V>>,
) -> (r: V)
    requires
        occs.len() > 0,
    ensures
        exact_clone::<V>() ==> r == resolved_value(*policy, ref_trees(occs@)),
{
    proof {
        lemma_pattern_view(*occs@[0]);
        lemma_pattern_view(*occs@[occs.len() - 1]);
    }
    match policy {
        ReconciliationPolicy::LastWriteWins => {
            let r = occs[occs.len() - 1].value.clone();
            proof {
                assert(cloned(occs@[occs.len() - 1].value, r));
            }
            r
        },
        ReconciliationPolicy::Merge(_, strategy) => {
            let mut acc = occs[0].value.clone();
            proof {
                assert(cloned(occs@[0].value, acc));
            }
            let ghost os = ref_trees(occs@);
            let mut j: usize = 1;
            while j < occs.len()
                invariant
                    1 <= j <= occs.len(),
                    os == ref_trees(occs@),
                    exact_clone::<V>() ==> acc == merged_values(*strategy, os.take(j as int)),
                decreases occs.len() - j,
            {
                let next = occs[j].value.clone();
                proof {
                    assert(cloned(occs@[j as int].value, next));
                    lemma_pattern_view(*occs@[j as int]);
                    assert(os.take(j + 1).drop_last() =~= os.take(j as int));
                }
                acc = V::merge(strategy, acc, next);
                j = j + 1;
            }
            proof {
                assert(os.take(occs.len() as int) =~= os);
            }
            acc
        },
        _ => {
            let r = occs[0].value.clone();
            proof {
                assert(cloned(occs@[0].value, r));
            }
            r
        },
    }
}

/// What one identity resolves to.
struct Resolved<V> {
    id: Symbol,
    value: V,
    children: Vec<Symbol>,
}

/// The entries give, for every identity of `ids` and only those, what `g` resolves it
/// to (the value only where cloning is exact), and name only identities of `ids` as
/// children.
spec fn describes<V: Clone>(
    entries: Seq<Resolved<V>>,
    ids: Set<Seq<char>>,
    g: spec_fn(Seq<char>) -> (V, Seq<Seq<char>>),
) -> bool {
    &&& forall|k: int| 0 <= k < entries.len() ==> ids.contains(#[trigger] entries[k].id@)
    &&& forall|x: Seq<char>| ids.contains(x) ==> exists|k: int| 0 <= k < entries.len() && #[trigger] entries[k].id@ == x
    &&& forall|k: int| 0 <= k < entries.len() ==> symbol_texts(#[trigger] entries[k].children@) == g(entries[k].id@).1
    &&& forall|k: int| 0 <= k < entries.len() ==> (exact_clone::<V>() ==> #[trigger] entries[k].value == g(entries[k].id@).0)
    &&& forall|k: int, c: Seq<char>| 0 <= k < entries.len() && #[trigger] symbol_texts(entries[k].children@).contains(c) ==> ids.contains(c)
}

/// The texts of a sequence of symbols, as a set.
spec fn text_set(s: Seq<Symbol>) -> Set<Seq<char>> {
    symbol_texts(s).to_set()
}

/// A walk never forgets what was visited before it.
proof fn lemma_walked_keeps<V>(
    ids: Set<Seq<char>>,
    g: spec_fn(Seq<char>) -> (V, Seq<Seq<char>>),
    visited: Set<Seq<char>>,
    x: Seq<char>,
)
    requires
        ids.finite(),
    ensures
        visited.subset_of(walked(ids, g, visited, x).1),
{
    if ids.contains(x) && !visited.contains(x) {
        let v2 = visited.insert(x);
        let cs = g(x).1;
        assert(v2.subset_of(walked_children(ids, g, v2, cs, cs.len()).1));
    }
}

/// Rebuilds the pattern of identity `x` from the entries, walking depth first and
/// skipping identities already visited.
fn rebuild_pattern<V: HasIdentity<V, Symbol> + Mergeable + Clone>(
    entries: &Vec<Resolved<V>>,
    Ghost(ids): Ghost<Set<Seq<char>>>,
    Ghost(g): Ghost<spec_fn(Seq<char>) -> (V, Seq<Seq<char>>)>,
    visited: &mut Vec<Symbol>,
    x: &Symbol,
) -> (r: Pattern<V>)
    requires
        ids.finite(),
        describes(entries@, ids, g),
        ids.contains(x@),
        !text_set(old(visited)@).contains(x@),
    ensures
        text_set(final(visited)@) == walked(ids, g, text_set(old(visited)@), x@).1,
        exact_clone::<V>() ==> r@ == walked(ids, g, text_set(old(visited)@), x@).0,
    decreases ids.difference(text_set(old(visited)@)).len(),
{
    let ghost v0 = text_set(visited@);
    let mut k: usize = 0;
    while k < entries.len() && !(entries[k].id == *x)
        invariant
            k <= entries.len(),
            forall|j: int| 0 <= j < k ==> entries@[j].id@ != x@,
        decreases entries.len() - k,
    {
        k = k + 1;
    }
    proof {
        if k == entries.len() {
            let j = choose|j: int| 0 <= j < entries@.len() && #[trigger] entries@[j].id@ == x@;
            assert(entries@[j].id@ == x@);
        }
    }
    let entry = &entries[k];
    let ghost before_push = visited@;
    visited.push(x.clone());
    let ghost v2 = v0.insert(x@);
    proof {
        assert(symbol_texts(visited@) =~= symbol_texts(before_push) + seq![x@]);
        Seq::<Seq<char>>::lemma_to_set_insert_commutes(symbol_texts(before_push), x@);
        assert(text_set(visited@) =~= v2);
        ids.lemma_set_insert_diff_decreases(v0, x@);
    }
    let value = entry.value.clone();
    proof {
        assert(cloned(entry.value, value));
    }
    let ghost cs = g(x@).1;
    let mut elements: Vec<Pattern<V>> = Vec::new();
    let mut i: usize = 0;
    proof {
        assert(symbol_texts(entry.children@) == cs);
        assert(elements@.map_values(|e: Pattern<V>| e@) =~= walked_children(ids, g, v2, cs, 0).0);
    }
    while i < entry.children.len()
        invariant
            i <= entry.children.len(),
            ids.finite(),
            describes(entries@, ids, g),
            k < entries.len(),
            entry == &entries@[k as int],
            symbol_texts(entry.children@) == cs,
            v2 == v0.insert(x@),
            ids.contains(x@),
            !v0.contains(x@),
            ids.difference(v2).len() < ids.difference(v0).len(),
            v0 == text_set(old(visited)@),
            v2.subset_of(text_set(visited@)),
            text_set(visited@) == walked_children(ids, g, v2, cs, i as nat).1,
            exact_clone::<V>() ==> elements@.map_values(|e: Pattern<V>| e@) == walked_children(ids, g, v2, cs, i as nat).0,
        decreases entry.children.len() - i,
    {
        let c = &entry.children[i];
        let ghost vi = text_set(visited@);
        let ghost before = walked_children(ids, g, v2, cs, i as nat);
        proof {
            assert(symbol_texts(entry.children@)[i as int] == c@);
            assert(cs[i as int] == c@);
            assert(symbol_texts(entry.children@).contains(c@));
            assert(vi.union(v2) =~= vi);
        }
        if !holds_symbol(visited, c) {
            proof {
                assert(!vi.contains(c@)) by {
                    if vi.contains(c@) {
                        assert(symbol_texts(visited@).contains(c@));
                    }
                }
                vstd::set_lib::lemma_len_subset(ids.difference(vi), ids.difference(v2));
            }
            let ghost mid = elements@;
            let e = rebuild_pattern(entries, Ghost(ids), Ghost(g), visited, c);
            elements.push(e);
            proof {
                lemma_walked_keeps(ids, g, vi, c@);
                let kid = walked(ids, g, vi, c@);
                assert(kid.1.union(vi) =~= kid.1);
                if exact_clone::<V>() {
                    assert(elements@.map_values(|e: Pattern<V>| e@) =~= mid.map_values(|e: Pattern<V>| e@).push(e@));
                }
            }
        } else {
            proof {
                assert(vi.contains(c@)) by {
                    assert(symbol_texts(visited@).contains(c@));
                }
            }
        }
        i = i + 1;
    }
    let r = Pattern { value, elements };
    proof {
        lemma_pattern_view(r);
        if exact_clone::<V>() {
            assert(r@.children =~= elements@.map_values(|e: Pattern<V>| e@));
        }
    }
    r
}

/// A member of a pre-order subtree's children is itself a pre-order subtree.
proof fn lemma_subtrees_closed<V>(t: Tree<V>, s: Tree<V>, i: int)
    requires
        tree_subtrees(t).contains(s),
        0 <= i < s.children.len(),
    ensures
        tree_subtrees(t).contains(s.children[i]),
    decreases t,
{
    tree::lemma_tree_subtrees_contains(t, s);
    tree::lemma_tree_subtrees_contains(t, s.children[i]);
    if s == t {
        tree::lemma_tree_subtrees_contains(t.children[i], t.children[i]);
        assert(seq![t.children[i]][0] == t.children[i]);
        assert(tree_subtrees(t.children[i])[0] == t.children[i]);
    } else {
        let j = choose|j: int| 0 <= j < t.children.len() && #[trigger] tree_subtrees(t.children[j]).contains(s);
        lemma_subtrees_closed(t.children[j], s, i);
    }
}

/// What a flattened sequence of lists contains comes from one of the lists.
proof fn lemma_flatten_contains(lists: Seq<Seq<Seq<char>>>, c: Seq<char>)
    requires
        lists.flatten_alt().contains(c),
    ensures
        exists|j: int| 0 <= j < lists.len() && #[trigger] lists[j].contains(c),
    decreases lists.len(),
{
    if lists.len() > 0 {
        let a = lists.drop_last().flatten_alt();
        let b = lists.last();
        tree::lemma_contains_add(a, b, c);
        if a.contains(c) {
            lemma_flatten_contains(lists.drop_last(), c);
            let j = choose|j: int| 0 <= j < lists.drop_last().len() && #[trigger] lists.drop_last()[j].contains(c);
            assert(lists[j] == lists.drop_last()[j]);
        } else {
            assert(lists[lists.len() - 1].contains(c));
        }
    }
}

/// The identity of a child of a pre-order subtree of `t` is an identity of `t`.
proof fn lemma_child_identity<V: HasIdentity<V, Symbol>>(t: Tree<V>, o: Tree<V>, c: Seq<char>)
    requires
        tree_subtrees(t).contains(o),
        ids_of(o.children).contains(c),
    ensures
        identities(t).contains(c),
{
    let i = choose|i: int| 0 <= i < ids_of(o.children).len() && ids_of(o.children)[i] == c;
    lemma_subtrees_closed(t, o, i);
    let k = choose|k: int| 0 <= k < tree_subtrees(t).len() && tree_subtrees(t)[k] == o.children[i];
    assert(ids_of(tree_subtrees(t))[k] == c);
    assert(ids_of(tree_subtrees(t)).contains(c));
}

/// Every child identity that reconciliation resolves to is an identity of `t`.
proof fn lemma_resolved_children_in<V: HasIdentity<V, Symbol> + Mergeable>(
    policy: ReconciliationPolicy<V::MergeStrategy>,
    t: Tree<V>,
    x: Seq<char>,
    c: Seq<char>,
)
    requires
        resolved_children(policy, occurrences(t, x)).contains(c),
    ensures
        identities(t).contains(c),
{
    let os = occurrences(t, x);
    let lists = child_id_lists(os);
    let all = lists.flatten_alt();
    assert forall|o: Tree<V>| os.contains(o) implies tree_subtrees(t).contains(o) by {
        tree_subtrees(t).lemma_filter_contains_rev(has_id(x), o);
    }
    match policy {
        ReconciliationPolicy::Merge(ElementMergeStrategy::ReplaceElements, _) => {
            if os.len() > 0 {
                assert(os.contains(os.last()));
                lemma_child_identity(t, os.last(), c);
            }
        },
        _ => {
            if !(policy matches ReconciliationPolicy::Merge(ElementMergeStrategy::AppendElements, _)) {
                lemma_first_appearances(all);
            }
            assert(all.contains(c));
            lemma_flatten_contains(lists, c);
            let j = choose|j: int| 0 <= j < lists.len() && #[trigger] lists[j].contains(c);
            assert(os.contains(os[j]));
            lemma_child_identity(t, os[j], c);
        },
    }
}

/// Resolves every identity of the sub-patterns `subs` of `t` under `policy`.
fn resolve_all<V: HasIdentity<V, Symbol> + Mergeable + Clone>(
    policy: &ReconciliationPolicy<V::MergeStrategy>,
    subs: &Vec<&Pattern<V>>,
    Ghost(t): Ghost<Tree<V>>,
) -> (r: Vec<Resolved<V>>)
    requires
        ref_trees(subs@) == tree_subtrees(t),
    ensures
        describes(r@, identities(t), resolution(*policy, t)),
{
    let ids = distinct_identities(subs);
    let ghost all_ids = ids_of(tree_subtrees(t));
    let ghost g = resolution(*policy, t);
    proof {
        lemma_first_appearances(all_ids);
    }
    let mut r: Vec<Resolved<V>> = Vec::new();
    let mut k: usize = 0;
    while k < ids.len()
        invariant
            k <= ids.len(),
            ref_trees(subs@) == tree_subtrees(t),
            all_ids == ids_of(tree_subtrees(t)),
            g == resolution(*policy, t),
            symbol_texts(ids@) == first_appearances(all_ids),
            forall|x: Seq<char>| first_appearances(all_ids).contains(x) <==> all_ids.contains(x),
            r.len() == k,
            forall|j: int| 0 <= j < k ==> #[trigger] r@[j].id@ == ids@[j]@,
            forall|j: int| 0 <= j < r.len() ==> identities(t).contains(#[trigger] r@[j].id@),
            forall|j: int| 0 <= j < r.len() ==> symbol_texts(#[trigger] r@[j].children@) == g(r@[j].id@).1,
            forall|j: int| 0 <= j < r.len() ==> (exact_clone::<V>() ==> #[trigger] r@[j].value == g(r@[j].id@).0),
            forall|j: int, c: Seq<char>| 0 <= j < r.len() && #[trigger] symbol_texts(r@[j].children@).contains(c) ==> identities(t).contains(c),
        decreases ids.len() - k,
    {
        let x = &ids[k];
        let occs = occurrences_in(subs, x);
        proof {
            assert(symbol_texts(ids@)[k as int] == x@);
            assert(first_appearances(all_ids).contains(x@));
            assert(all_ids.contains(x@));
            let j = choose|j: int| 0 <= j < all_ids.len() && all_ids[j] == x@;
            assert(has_id(x@)(tree_subtrees(t)[j]));
            tree_subtrees(t).lemma_filter_contains(has_id(x@), j);
            assert(ref_trees(occs@).len() > 0);
            assert(identities(t).contains(x@));
        }
        let value = reconcile_occurrences(policy, &occs);
        let children = merge_elements(policy, &occs);
        proof {
            assert forall|c: Seq<char>| #[trigger] symbol_texts(children@).contains(c) implies identities(t).contains(c) by {
                lemma_resolved_children_in(*policy, t, x@, c);
            }
        }
        r.push(Resolved { id: x.clone(), value, children });
        k = k + 1;
    }
    proof {
        assert forall|x: Seq<char>| identities(t).contains(x) implies exists|j: int| 0 <= j < r@.len() && #[trigger] r@[j].id@ == x by {
            assert(all_ids.contains(x));
            assert(first_appearances(all_ids).contains(x));
            let j = choose|j: int| 0 <= j < symbol_texts(ids@).len() && symbol_texts(ids@)[j] == x;
            assert(r@[j].id@ == x);
        }
    }
    r
}

/// Reconciles with a policy that never fails.
fn reconcile_non_strict<V: HasIdentity<V, Symbol> + Mergeable + Clone>(
    policy: &ReconciliationPolicy<V::MergeStrategy>,
    pattern: &Pattern<V>,
) -> (r: Pattern<V>)
    ensures
        exact_clone::<V>() ==> r@ == reconciled(*policy, pattern@),
{
    let ghost t = pattern@;
    let mut subs: Vec<&Pattern<V>> = Vec::new();
    collect_recursive(pattern, &mut subs);
    proof {
        assert(ref_trees(subs@) =~= tree_subtrees(t));
    }
    let entries = resolve_all(policy, &subs, Ghost(t));
    let ghost ids = identities(t);
    let mut visited: Vec<Symbol> = Vec::new();
    let root = V::identity(&pattern.value);
    proof {
        vstd::seq_lib::seq_to_set_is_finite(ids_of(tree_subtrees(t)));
        lemma_pattern_view(*pattern);
        assert(tree_subtrees(t)[0] == t);
        assert(ids_of(tree_subtrees(t))[0] == root@);
        assert(ids.contains(root@));
        assert(text_set(visited@) =~= Set::<Seq<char>>::empty());
    }
    rebuild_pattern(&entries, Ghost(ids), Ghost(resolution(*policy, t)), &mut visited, root)
}

/// Some identity of `t` occurs with a value that differs (by `==`) from its first
/// occurrence's.
pub open spec fn conflicting<V: HasIdentity<V, Symbol> + PartialEq>(t: Tree<V>) -> bool {
    exists|x: Seq<char>, j: int|
        identities(t).contains(x) && 0 < j < occurrences(t, x).len() && !(#[trigger] occurrences(
            t,
            x,
        )[j]).value.eq_spec(&occurrences(t, x)[0].value)
}

/// Whether some occurrence in `occs` differs from the first.
fn differs_from_first<V: PartialEq>(occs: &Vec<&Pattern<V>>) -> (r: bool)
    ensures
        V::obeys_eq_spec() ==> (r <==> exists|j: int|
            0 < j < occs.len() && !occs@[j].value.eq_spec(&occs@[0].value)),
{
    let mut j: usize = 1;
    while j < occs.len()
        invariant
            1 <= j,
            V::obeys_eq_spec() ==> forall|i: int| 0 < i < j && i < occs.len() ==> occs@[i].value.eq_spec(&occs@[0].value),
        decreases occs.len() - j,
    {
        if !(occs[j].value == occs[0].value) {
            return true;
        }
        j = j + 1;
    }
    false
}

/// Reconciles the occurrences of each identity in `pattern` under `policy`: each
/// identity keeps one node, whose value and elements the policy resolves, and the
/// pattern is rebuilt depth first from the root, each identity expanded where it is
/// first reached. `Strict` fails when occurrences of an identity differ, and otherwise
/// keeps the first of each.
pub fn reconcile<V>(policy: &ReconciliationPolicy<V::MergeStrategy>, pattern: &Pattern<V>) -> (r: Result<
    Pattern<V>,
    ReconcileError,
>) where V: HasIdentity<V, Symbol> + Mergeable + Refinable + PartialEq + Clone
    ensures
        !(*policy is Strict) ==> r is Ok,
        !(*policy is Strict) && r is Ok ==> (exact_clone::<V>() ==> r->Ok_0@ == reconciled(
            *policy,
            pattern@,
        )),
        *policy is Strict ==> (V::obeys_eq_spec() ==> (r is Err <==> conflicting(pattern@))),
        *policy is Strict && r is Ok ==> (exact_clone::<V>() ==> r->Ok_0@ == reconciled(
            ReconciliationPolicy::FirstWriteWins,
            pattern@,
        )),
        r is Err ==> r->Err_0.message@ == "Duplicate identities with different content"@,
{
    match policy {
        ReconciliationPolicy::Strict => reconcile_strict(pattern),
        _ => Ok(reconcile_non_strict(policy, pattern)),
    }
}

fn reconcile_strict<V>(pattern: &Pattern<V>) -> (r: Result<Pattern<V>, ReconcileError>) where
    V: HasIdentity<V, Symbol> + Mergeable + Refinable + PartialEq + Clone
    ensures
        V::obeys_eq_spec() ==> (r is Err <==> conflicting(pattern@)),
        r is Ok ==> (exact_clone::<V>() ==> r->Ok_0@ == reconciled(
            ReconciliationPolicy::FirstWriteWins,
            pattern@,
        )),
        r is Err ==> r->Err_0.message@ == "Duplicate identities with different content"@,
{
    let ghost t = pattern@;
    let mut subs: Vec<&Pattern<V>> = Vec::new();
    collect_recursive(pattern, &mut subs);
    proof {
        assert(ref_trees(subs@) =~= tree_subtrees(t));
    }
    let ids = distinct_identities(&subs);
    let ghost all_ids = ids_of(tree_subtrees(t));
    proof {
        lemma_first_appearances(all_ids);
    }
    let mut k: usize = 0;
    while k < ids.len()
        invariant
            k <= ids.len(),
            t == pattern@,
            ref_trees(subs@) == tree_subtrees(t),
            all_ids == ids_of(tree_subtrees(t)),
            symbol_texts(ids@) == first_appearances(all_ids),
            forall|x: Seq<char>| first_appearances(all_ids).contains(x) <==> all_ids.contains(x),
            V::obeys_eq_spec() ==> forall|i: int, j: int|
                0 <= i < k && 0 < j < occurrences(t, ids@[i]@).len() ==> (#[trigger] occurrences(
                    t,
                    ids@[i]@,
                )[j]).value.eq_spec(&occurrences(t, ids@[i]@)[0].value),
        decreases ids.len() - k,
    {
        let occs = occurrences_in(&subs, &ids[k]);
        proof {
            assert(ref_trees(occs@) == occurrences(t, ids@[k as int]@));
            assert forall|j: int| 0 <= j < occs@.len() implies #[trigger] ref_trees(occs@)[j].value == occs@[j].value by {
                lemma_pattern_view(*occs@[j]);
            }
        }
        if differs_from_first(&occs) {
            proof {
                if V::obeys_eq_spec() {
                    let j = choose|j: int| 0 < j < occs@.len() && !occs@[j].value.eq_spec(&occs@[0].value);
                    let x = ids@[k as int]@;
                    assert(symbol_texts(ids@)[k as int] == x);
                    assert(all_ids.contains(x));
                    let m = choose|m: int| 0 <= m < all_ids.len() && all_ids[m] == x;
                    assert(ids_of(tree_subtrees(t)).contains(x));
                    assert(ref_trees(occs@)[j].value == occs@[j].value);
                    assert(ref_trees(occs@)[0].value == occs@[0].value);
                    assert(identities(t).contains(x));
                    assert(0 < j < occurrences(t, x).len());
                    assert(!(occurrences(t, x)[j]).value.eq_spec(&occurrences(t, x)[0].value));
                    assert(conflicting(t));
                }
            }
            return Err(ReconcileError { message: crate::text::owned("Duplicate identities with different content") });
        }
        proof {
            if V::obeys_eq_spec() {
                assert forall|j: int| 0 < j < occurrences(t, ids@[k as int]@).len() implies (#[trigger] occurrences(t, ids@[k as int]@)[j]).value.eq_spec(&occurrences(t, ids@[k as int]@)[0].value) by {
                    assert(ref_trees(occs@)[j].value == occs@[j].value);
                    assert(ref_trees(occs@)[0].value == occs@[0].value);
                }
            }
        }
        k = k + 1;
    }
    proof {
        if V::obeys_eq_spec() && conflicting(t) {
            let (x, j) = choose|x: Seq<char>, j: int| identities(t).contains(x) && 0 < j < occurrences(t, x).len() && !(#[trigger] occurrences(t, x)[j]).value.eq_spec(&occurrences(t, x)[0].value);
            assert(all_ids.contains(x));
            assert(first_appearances(all_ids).contains(x));
            let i = choose|i: int| 0 <= i < symbol_texts(ids@).len() && symbol_texts(ids@)[i] == x;
            assert(ids@[i]@ == x);
            assert(false);
        }
    }
    Ok(reconcile_non_strict(&ReconciliationPolicy::FirstWriteWins, pattern))
}

} // verus!
