use vstd::prelude::*;

use crate::reconcile::{
    child_id_lists, has_id, id_of, identities, ids_of, lemma_first_appearances, merged_values,
    occurrences, reconciled, resolution, resolved_children, walked, walked_children, ElementMergeStrategy, HasIdentity,
    Mergeable, ReconciliationPolicy,
};
use crate::subject::Symbol;
use crate::tree::{forest_values, tree_subtrees, tree_values, Tree};

verus! {

/// The identities of a sequence of values.
pub open spec fn value_ids<V: HasIdentity<V, Symbol>>(s: Seq<V>) -> Seq<Seq<char>> {
    s.map_values(|v: V| id_of(v))
}

/// Every identity of `ids` gives a value of that identity, and children among `ids`.
spec fn closed_graph<V: HasIdentity<V, Symbol>>(ids: Set<Seq<char>>, g: spec_fn(Seq<char>) -> (V, Seq<Seq<char>>)) -> bool {
    &&& forall|x: Seq<char>| ids.contains(x) ==> id_of(#[trigger] g(x).0) == x
    &&& forall|x: Seq<char>, k: int| ids.contains(x) && 0 <= k < g(x).1.len() ==> ids.contains(#[trigger] g(x).1[k])
}

/// The identities of two sequences of values put together.
proof fn lemma_value_ids_add<V: HasIdentity<V, Symbol>>(a: Seq<V>, b: Seq<V>)
    ensures
        value_ids(a + b) == value_ids(a) + value_ids(b),
{
    assert(value_ids(a + b) =~= value_ids(a) + value_ids(b));
}

/// Two sequences without duplicates and without common members put together have no
/// duplicates.
proof fn lemma_disjoint_no_duplicates(a: Seq<Seq<char>>, b: Seq<Seq<char>>)
    requires
        a.no_duplicates(),
        b.no_duplicates(),
        forall|c: Seq<char>| a.contains(c) ==> !b.contains(c),
    ensures
        (a + b).no_duplicates(),
{
    let s = a + b;
    assert forall|i: int, j: int| 0 <= i < s.len() && 0 <= j < s.len() && i != j implies s[i] != s[j] by {
        if i < a.len() && j >= a.len() {
            assert(a.contains(s[i]));
            assert(b[j - a.len()] == s[j]);
        } else if j < a.len() && i >= a.len() {
            assert(a.contains(s[j]));
            assert(b[i - a.len()] == s[i]);
        } else if i >= a.len() {
            assert(s[i] == b[i - a.len()] && s[j] == b[j - a.len()]);
        }
    }
}

/// What a sequence put together from two contains.
proof fn lemma_add_contains(a: Seq<Seq<char>>, b: Seq<Seq<char>>, c: Seq<char>)
    ensures
        (a + b).contains(c) <==> a.contains(c) || b.contains(c),
{
    crate::tree::lemma_contains_add(a, b, c);
}

/// The tree walked from an unvisited identity holds each identity once, each newly
/// visited.
proof fn lemma_walked_distinct<V: HasIdentity<V, Symbol>>(
    ids: Set<Seq<char>>,
    g: spec_fn(Seq<char>) -> (V, Seq<Seq<char>>),
    visited: Set<Seq<char>>,
    x: Seq<char>,
)
    requires
        ids.finite(),
        closed_graph(ids, g),
        ids.contains(x),
        !visited.contains(x),
    ensures
        value_ids(tree_values(walked(ids, g, visited, x).0)).no_duplicates(),
        forall|c: Seq<char>|
            value_ids(tree_values(walked(ids, g, visited, x).0)).contains(c) ==> walked(ids, g, visited, x).1.contains(c)
                && !visited.contains(c),
        visited.subset_of(walked(ids, g, visited, x).1),
    decreases ids.difference(visited).len(), 0nat, 0nat,
{
    let v2 = visited.insert(x);
    ids.lemma_set_insert_diff_decreases(visited, x);
    let cs = g(x).1;
    assert forall|k: int| 0 <= k < cs.len() implies ids.contains(#[trigger] cs[k]) by {
        assert(ids.contains(g(x).1[k]));
    }
    lemma_children_distinct(ids, g, v2, cs, cs.len());
    let kids = walked_children(ids, g, v2, cs, cs.len());
    let t = walked(ids, g, visited, x).0;
    assert(t == Tree { value: g(x).0, children: kids.0 });
    assert(tree_values(t) == seq![g(x).0] + forest_values(kids.0));
    lemma_value_ids_add(seq![g(x).0], forest_values(kids.0));
    assert(value_ids(seq![g(x).0]) =~= seq![x]);
    let rest = value_ids(forest_values(kids.0));
    assert(v2.contains(x));
    assert(!rest.contains(x)) by {
        if rest.contains(x) {
            assert(!v2.contains(x));
        }
    }
    assert forall|c: Seq<char>| seq![x].contains(c) implies !rest.contains(c) by {
        assert(seq![x][0] == x);
        let i = choose|i: int| 0 <= i < seq![x].len() && seq![x][i] == c;
        assert(c == x);
    }
    assert(seq![x].no_duplicates());
    lemma_disjoint_no_duplicates(seq![x], rest);
    assert forall|c: Seq<char>| value_ids(tree_values(t)).contains(c) implies kids.1.contains(c) && !visited.contains(c) by {
        lemma_add_contains(seq![x], rest, c);
        if seq![x].contains(c) {
            let i = choose|i: int| 0 <= i < seq![x].len() && seq![x][i] == c;
            assert(c == x);
            assert(kids.1.contains(x));
        } else {
            assert(rest.contains(c));
            assert(kids.1.contains(c) && !v2.contains(c));
        }
    }
}

/// The children walked from a list of identities hold each identity once, each newly
/// visited.
proof fn lemma_children_distinct<V: HasIdentity<V, Symbol>>(
    ids: Set<Seq<char>>,
    g: spec_fn(Seq<char>) -> (V, Seq<Seq<char>>),
    visited: Set<Seq<char>>,
    cs: Seq<Seq<char>>,
    n: nat,
)
    requires
        ids.finite(),
        closed_graph(ids, g),
        forall|k: int| 0 <= k < cs.len() ==> ids.contains(#[trigger] cs[k]),
    ensures
        value_ids(forest_values(walked_children(ids, g, visited, cs, n).0)).no_duplicates(),
        forall|c: Seq<char>|
            value_ids(forest_values(walked_children(ids, g, visited, cs, n).0)).contains(c) ==> walked_children(
                ids,
                g,
                visited,
                cs,
                n,
            ).1.contains(c) && !visited.contains(c),
        visited.subset_of(walked_children(ids, g, visited, cs, n).1),
    decreases ids.difference(visited).len(), 1nat, n,
{
    if n == 0 || n > cs.len() {
        assert(value_ids(forest_values(Seq::<Tree<V>>::empty())) =~= Seq::<Seq<char>>::empty());
    } else {
        let before = walked_children(ids, g, visited, cs, (n - 1) as nat);
        lemma_children_distinct(ids, g, visited, cs, (n - 1) as nat);
        let seen = before.1.union(visited);
        vstd::set_lib::lemma_len_subset(ids.difference(seen), ids.difference(visited));
        let a = value_ids(forest_values(before.0));
        if !seen.contains(cs[n - 1]) {
            let kid = walked(ids, g, seen, cs[n - 1]);
            lemma_walked_distinct(ids, g, seen, cs[n - 1]);
            let ks = before.0.push(kid.0);
            assert(ks.len() > 0);
            assert(ks.drop_last() =~= before.0);
            assert(ks.last() == kid.0);
            assert(forest_values(ks) == forest_values(before.0) + tree_values(kid.0));
            lemma_value_ids_add(forest_values(before.0), tree_values(kid.0));
            let b = value_ids(tree_values(kid.0));
            assert forall|c: Seq<char>| a.contains(c) implies !b.contains(c) by {
                assert(before.1.contains(c));
                assert(seen.contains(c));
                if b.contains(c) {
                    assert(!seen.contains(c));
                }
            }
            lemma_disjoint_no_duplicates(a, b);
            assert forall|c: Seq<char>| (a + b).contains(c) implies kid.1.union(seen).contains(c) && !visited.contains(c) by {
                lemma_add_contains(a, b, c);
                if a.contains(c) {
                    assert(before.1.contains(c) && !visited.contains(c));
                } else {
                    assert(b.contains(c));
                    assert(kid.1.contains(c) && !seen.contains(c));
                }
            }
            assert(walked_children(ids, g, visited, cs, n) == (ks, kid.1.union(seen)));
            assert(visited.subset_of(kid.1.union(seen)));
        }
    }
}

/// The identity of the fold of merges is that of the first value, where merging keeps
/// the first value's identity.
proof fn lemma_merged_identity<V: HasIdentity<V, Symbol> + Mergeable>(strategy: V::MergeStrategy, os: Seq<Tree<V>>)
    requires
        os.len() > 0,
        forall|s: V::MergeStrategy, a: V, b: V| #[trigger] id_of(V::merge_spec(s, a, b)) == id_of(a),
    ensures
        id_of(merged_values(strategy, os)) == id_of(os[0].value),
    decreases os.len(),
{
    if os.len() > 1 {
        lemma_merged_identity(strategy, os.drop_last());
        assert(id_of(V::merge_spec(strategy, merged_values(strategy, os.drop_last()), os.last().value)) == id_of(
            merged_values(strategy, os.drop_last()),
        ));
    }
}

/// The graph of identities that reconciling `t` resolves to is closed: each identity
/// of `t` resolves to a value of that identity and to element identities of `t`
/// (where merging keeps the first value's identity).
proof fn lemma_resolution_closed<V: HasIdentity<V, Symbol> + Mergeable>(
    policy: ReconciliationPolicy<V::MergeStrategy>,
    t: Tree<V>,
)
    requires
        forall|s: V::MergeStrategy, a: V, b: V| #[trigger] id_of(V::merge_spec(s, a, b)) == id_of(a),
    ensures
        identities(t).finite(),
        identities(t).contains(id_of(t.value)),
        closed_graph(identities(t), resolution(policy, t)),
{
    let ids = identities(t);
    let g = resolution(policy, t);
    let subs = tree_subtrees(t);
    vstd::seq_lib::seq_to_set_is_finite(ids_of(subs));
    assert forall|x: Seq<char>| ids.contains(x) implies id_of(#[trigger] g(x).0) == x by {
        let os = occurrences(t, x);
        let k = choose|k: int| 0 <= k < ids_of(subs).len() && ids_of(subs)[k] == x;
        subs.filter_lemma(crate::reconcile::has_id(x));
        assert(os.contains(subs[k]));
        assert(os.len() > 0);
        assert(id_of(os[0].value) == x);
        assert(id_of(os.last().value) == x) by {
            assert(crate::reconcile::has_id::<V>(x)(os[os.len() - 1]));
        }
        match policy {
            ReconciliationPolicy::Merge(_, s) => {
                lemma_merged_identity(s, os);
            },
            _ => {},
        }
    }
    assert forall|x: Seq<char>, k: int| ids.contains(x) && 0 <= k < g(x).1.len() implies ids.contains(#[trigger] g(x).1[k]) by {
        assert(resolved_children(policy, occurrences(t, x))[k] == g(x).1[k]);
        crate::reconcile::lemma_resolved_children_in(policy, t, x, g(x).1[k]);
    }
    assert(subs[0] == t);
    assert(ids_of(subs)[0] == id_of(t.value));
}

/// Reconciling with a policy other than `Strict` leaves each identity at most once in
/// the pattern (where merging keeps the first value's identity).
pub proof fn lemma_reconciled_identities_distinct<V: HasIdentity<V, Symbol> + Mergeable>(
    policy: ReconciliationPolicy<V::MergeStrategy>,
    t: Tree<V>,
)
    requires
        !(policy is Strict),
        forall|s: V::MergeStrategy, a: V, b: V| #[trigger] id_of(V::merge_spec(s, a, b)) == id_of(a),
    ensures
        value_ids(tree_values(reconciled(policy, t))).no_duplicates(),
{
    lemma_resolution_closed(policy, t);
    lemma_walked_distinct(identities(t), resolution(policy, t), Set::empty(), id_of(t.value));
}

/// Each node of `tt` has as elements only identities that `g` lists for the node's
/// identity.
pub open spec fn edges_follow<V: HasIdentity<V, Symbol>>(tt: Tree<V>, g: spec_fn(Seq<char>) -> (V, Seq<Seq<char>>)) -> bool {
    forall|n: Tree<V>, j: int|
        #[trigger] tree_subtrees(tt).contains(n) && 0 <= j < n.children.len() ==> g(id_of(n.value)).1.contains(
            id_of(#[trigger] n.children[j].value),
        )
}

/// The tree walked from an identity of a closed graph has that identity's value at
/// its root, and each of its nodes has as elements only identities that the graph
/// lists for the node.
proof fn lemma_walked_edges<V: HasIdentity<V, Symbol>>(
    ids: Set<Seq<char>>,
    g: spec_fn(Seq<char>) -> (V, Seq<Seq<char>>),
    visited: Set<Seq<char>>,
    x: Seq<char>,
)
    requires
        ids.finite(),
        closed_graph(ids, g),
        ids.contains(x),
    ensures
        walked(ids, g, visited, x).0.value == g(x).0,
        edges_follow(walked(ids, g, visited, x).0, g),
    decreases ids.difference(visited).len(), 0nat, 0nat,
{
    let tt = walked(ids, g, visited, x).0;
    assert(id_of(g(x).0) == x);
    if !visited.contains(x) {
        let v2 = visited.insert(x);
        ids.lemma_set_insert_diff_decreases(visited, x);
        let cs = g(x).1;
        assert forall|k: int| 0 <= k < cs.len() implies ids.contains(#[trigger] cs[k]) by {
            assert(ids.contains(g(x).1[k]));
        }
        lemma_children_edges(ids, g, v2, cs, cs.len());
        let kids = walked_children(ids, g, v2, cs, cs.len());
        assert(tt == Tree { value: g(x).0, children: kids.0 });
        assert forall|n: Tree<V>, j: int|
            #[trigger] tree_subtrees(tt).contains(n) && 0 <= j < n.children.len() implies g(id_of(n.value)).1.contains(
                id_of(#[trigger] n.children[j].value),
            ) by {
            crate::tree::lemma_tree_subtrees_contains(tt, n);
            if n != tt {
                let i = choose|i: int| 0 <= i < tt.children.len() && #[trigger] tree_subtrees(tt.children[i]).contains(n);
                assert(cs.contains(id_of(kids.0[i].value)));
                assert(edges_follow(kids.0[i], g));
            }
        }
    } else {
        assert forall|n: Tree<V>, j: int|
            #[trigger] tree_subtrees(tt).contains(n) && 0 <= j < n.children.len() implies g(id_of(n.value)).1.contains(
                id_of(#[trigger] n.children[j].value),
            ) by {
            crate::tree::lemma_tree_subtrees_contains(tt, n);
        }
    }
}

/// The children walked from a list of identities of a closed graph each have one of
/// those identities, and each of their nodes has as elements only identities that the
/// graph lists for the node.
proof fn lemma_children_edges<V: HasIdentity<V, Symbol>>(
    ids: Set<Seq<char>>,
    g: spec_fn(Seq<char>) -> (V, Seq<Seq<char>>),
    visited: Set<Seq<char>>,
    cs: Seq<Seq<char>>,
    n: nat,
)
    requires
        ids.finite(),
        closed_graph(ids, g),
        forall|k: int| 0 <= k < cs.len() ==> ids.contains(#[trigger] cs[k]),
    ensures
        forall|i: int| 0 <= i < walked_children(ids, g, visited, cs, n).0.len() ==> cs.contains(
            id_of(#[trigger] walked_children(ids, g, visited, cs, n).0[i].value),
        ) && edges_follow(walked_children(ids, g, visited, cs, n).0[i], g),
    decreases ids.difference(visited).len(), 1nat, n,
{
    if n == 0 || n > cs.len() {
    } else {
        let before = walked_children(ids, g, visited, cs, (n - 1) as nat);
        lemma_children_edges(ids, g, visited, cs, (n - 1) as nat);
        let seen = before.1.union(visited);
        vstd::set_lib::lemma_len_subset(ids.difference(seen), ids.difference(visited));
        if !seen.contains(cs[n - 1]) {
            let kid = walked(ids, g, seen, cs[n - 1]);
            lemma_walked_edges(ids, g, seen, cs[n - 1]);
            assert(ids.contains(cs[n - 1]));
            assert(id_of(g(cs[n - 1]).0) == cs[n - 1]);
            assert(cs.contains(cs[n - 1]));
            let ks = before.0.push(kid.0);
            assert(walked_children(ids, g, visited, cs, n).0 == ks);
            assert forall|i: int| 0 <= i < ks.len() implies cs.contains(id_of(#[trigger] ks[i].value)) && edges_follow(ks[i], g) by {
                if i < before.0.len() {
                    assert(ks[i] == before.0[i]);
                }
            }
        }
    }
}

/// The last filtered member of `s` is `s[k]` where `s[k]` passes and nothing after it
/// does.
proof fn lemma_filter_last<A>(s: Seq<A>, f: spec_fn(A) -> bool, k: int)
    requires
        0 <= k < s.len(),
        f(s[k]),
        forall|j: int| k < j < s.len() ==> !f(#[trigger] s[j]),
    ensures
        s.filter(f).len() > 0,
        s.filter(f).last() == s[k],
    decreases s.len(),
{
    reveal_with_fuel(Seq::filter, 1);
    if k < s.len() - 1 {
        assert(!f(s.last()));
        assert forall|j: int| k < j < s.drop_last().len() implies !f(#[trigger] s.drop_last()[j]) by {
            assert(s.drop_last()[j] == s[j]);
        }
        lemma_filter_last(s.drop_last(), f, k);
    }
}

/// `o` is the last subtree of `t` in pre-order whose root has identity `x`.
pub open spec fn is_last_occurrence<V: HasIdentity<V, Symbol>>(t: Tree<V>, x: Seq<char>, o: Tree<V>) -> bool {
    exists|k: int|
        0 <= k < tree_subtrees(t).len() && #[trigger] tree_subtrees(t)[k] == o && id_of(o.value) == x && forall|j: int|
            k < j < tree_subtrees(t).len() ==> id_of(#[trigger] tree_subtrees(t)[j].value) != x
}

/// Under `Merge(ReplaceElements, _)` the elements of an identity are those of its last
/// occurrence in pre-order: every element of every node of the reconciled pattern has
/// an identity that the last occurrence of the node's identity in `t` has among its
/// elements (where merging keeps the first value's identity).
pub proof fn lemma_replace_elements_takes_last_occurrence<V: HasIdentity<V, Symbol> + Mergeable>(
    policy: ReconciliationPolicy<V::MergeStrategy>,
    t: Tree<V>,
    r: Tree<V>,
    n: Tree<V>,
    j: int,
    o: Tree<V>,
)
    requires
        policy matches ReconciliationPolicy::Merge(ElementMergeStrategy::ReplaceElements, _),
        forall|s: V::MergeStrategy, a: V, b: V| #[trigger] id_of(V::merge_spec(s, a, b)) == id_of(a),
        r == reconciled(policy, t),
        tree_subtrees(r).contains(n),
        0 <= j < n.children.len(),
        is_last_occurrence(t, id_of(n.value), o),
    ensures
        ids_of(o.children).contains(id_of(n.children[j].value)),
{
    let ids = identities(t);
    let g = resolution(policy, t);
    lemma_resolution_closed(policy, t);
    lemma_walked_edges(ids, g, Set::empty(), id_of(t.value));
    assert(edges_follow(r, g));
    let y = id_of(n.value);
    assert(g(y).1.contains(id_of(n.children[j].value)));
    let subs = tree_subtrees(t);
    let k = choose|k: int|
        0 <= k < subs.len() && #[trigger] subs[k] == o && id_of(o.value) == y && forall|i: int|
            k < i < subs.len() ==> id_of(#[trigger] subs[i].value) != y;
    let f = crate::reconcile::has_id::<V>(y);
    assert forall|i: int| k < i < subs.len() implies !f(#[trigger] subs[i]) by {
        assert(id_of(subs[i].value) != y);
    }
    lemma_filter_last(subs, f, k);
    assert(occurrences(t, y) == subs.filter(f));
    assert(g(y).1 == resolved_children(policy, occurrences(t, y)));
}

/// Some node of `tt` has identity `c`.
pub open spec fn holds_id<V: HasIdentity<V, Symbol>>(tt: Tree<V>, c: Seq<char>) -> bool {
    exists|m: Tree<V>| #[trigger] tree_subtrees(tt).contains(m) && id_of(m.value) == c
}

/// Walking from an unvisited identity of a closed graph visits exactly what was
/// visited before and the identities of the walked tree, and visits every identity
/// that the graph lists for a node of that tree.
proof fn lemma_walked_reach<V: HasIdentity<V, Symbol>>(
    ids: Set<Seq<char>>,
    g: spec_fn(Seq<char>) -> (V, Seq<Seq<char>>),
    visited: Set<Seq<char>>,
    x: Seq<char>,
)
    requires
        ids.finite(),
        closed_graph(ids, g),
        ids.contains(x),
        !visited.contains(x),
    ensures
        visited.subset_of(walked(ids, g, visited, x).1),
        forall|c: Seq<char>| #[trigger] walked(ids, g, visited, x).1.contains(c) ==> visited.contains(c) || holds_id(
            walked(ids, g, visited, x).0,
            c,
        ),
        forall|m: Tree<V>, c: Seq<char>|
            #[trigger] tree_subtrees(walked(ids, g, visited, x).0).contains(m) && #[trigger] g(id_of(m.value)).1.contains(c)
                ==> walked(ids, g, visited, x).1.contains(c),
    decreases ids.difference(visited).len(), 0nat, 0nat,
{
    let v2 = visited.insert(x);
    ids.lemma_set_insert_diff_decreases(visited, x);
    let cs = g(x).1;
    assert forall|k: int| 0 <= k < cs.len() implies ids.contains(#[trigger] cs[k]) by {
        assert(ids.contains(g(x).1[k]));
    }
    lemma_children_reach(ids, g, v2, cs, cs.len());
    let kids = walked_children(ids, g, v2, cs, cs.len());
    let tt = walked(ids, g, visited, x).0;
    let out = walked(ids, g, visited, x).1;
    assert(tt == Tree { value: g(x).0, children: kids.0 });
    assert(out == kids.1);
    assert(id_of(g(x).0) == x);
    crate::tree::lemma_tree_subtrees_contains(tt, tt);
    assert forall|c: Seq<char>| #[trigger] out.contains(c) implies visited.contains(c) || holds_id(tt, c) by {
        if c == x {
            assert(tree_subtrees(tt).contains(tt) && id_of(tt.value) == c);
        } else if !visited.contains(c) {
            let i = choose|i: int| 0 <= i < kids.0.len() && holds_id(kids.0[i], c);
            let m = choose|m: Tree<V>| #[trigger] tree_subtrees(kids.0[i]).contains(m) && id_of(m.value) == c;
            crate::tree::lemma_tree_subtrees_contains(tt, m);
            assert(tree_subtrees(tt.children[i]).contains(m));
            assert(tree_subtrees(tt).contains(m));
        }
    }
    assert forall|m: Tree<V>, c: Seq<char>|
        #[trigger] tree_subtrees(tt).contains(m) && #[trigger] g(id_of(m.value)).1.contains(c) implies out.contains(c) by {
        crate::tree::lemma_tree_subtrees_contains(tt, m);
        if m == tt {
            let k = choose|k: int| 0 <= k < cs.len() && cs[k] == c;
            assert(kids.1.contains(cs[k]));
        } else {
            let i = choose|i: int| 0 <= i < tt.children.len() && #[trigger] tree_subtrees(tt.children[i]).contains(m);
            assert(tree_subtrees(kids.0[i]).contains(m));
        }
    }
}

/// Walking the first `n` identities of `cs` visits each of them, visits exactly what
/// was visited before and the identities of the walked children, and visits every
/// identity that the graph lists for a node of those children.
proof fn lemma_children_reach<V: HasIdentity<V, Symbol>>(
    ids: Set<Seq<char>>,
    g: spec_fn(Seq<char>) -> (V, Seq<Seq<char>>),
    visited: Set<Seq<char>>,
    cs: Seq<Seq<char>>,
    n: nat,
)
    requires
        ids.finite(),
        closed_graph(ids, g),
        forall|k: int| 0 <= k < cs.len() ==> ids.contains(#[trigger] cs[k]),
        n <= cs.len(),
    ensures
        visited.subset_of(walked_children(ids, g, visited, cs, n).1),
        forall|k: int| 0 <= k < n ==> #[trigger] walked_children(ids, g, visited, cs, n).1.contains(cs[k]),
        forall|c: Seq<char>| #[trigger] walked_children(ids, g, visited, cs, n).1.contains(c) ==> visited.contains(c)
            || exists|i: int|
            0 <= i < walked_children(ids, g, visited, cs, n).0.len() && holds_id(
                #[trigger] walked_children(ids, g, visited, cs, n).0[i],
                c,
            ),
        forall|i: int, m: Tree<V>, c: Seq<char>|
            0 <= i < walked_children(ids, g, visited, cs, n).0.len() && #[trigger] tree_subtrees(
                walked_children(ids, g, visited, cs, n).0[i],
            ).contains(m) && #[trigger] g(id_of(m.value)).1.contains(c) ==> walked_children(
                ids,
                g,
                visited,
                cs,
                n,
            ).1.contains(c),
    decreases ids.difference(visited).len(), 1nat, n,
{
    let res = walked_children(ids, g, visited, cs, n);
    if n > 0 {
        let before = walked_children(ids, g, visited, cs, (n - 1) as nat);
        lemma_children_reach(ids, g, visited, cs, (n - 1) as nat);
        let seen = before.1.union(visited);
        vstd::set_lib::lemma_len_subset(ids.difference(seen), ids.difference(visited));
        assert(seen =~= before.1);
        if seen.contains(cs[n - 1]) {
            assert(res == (before.0, seen));
            assert forall|k: int| 0 <= k < n implies #[trigger] res.1.contains(cs[k]) by {
                if k < n - 1 {
                    assert(before.1.contains(cs[k]));
                }
            }
            assert forall|c: Seq<char>| #[trigger] res.1.contains(c) implies visited.contains(c) || exists|i: int|
                0 <= i < res.0.len() && holds_id(#[trigger] res.0[i], c) by {
                assert(before.1.contains(c));
            }
        } else {
            let kid = walked(ids, g, seen, cs[n - 1]);
            lemma_walked_reach(ids, g, seen, cs[n - 1]);
            let ks = before.0.push(kid.0);
            let out = kid.1.union(seen);
            assert(res == (ks, out));
            crate::tree::lemma_tree_subtrees_contains(kid.0, kid.0);
            assert(id_of(kid.0.value) == cs[n - 1]);
            assert(holds_id(kid.0, cs[n - 1]));
            assert forall|k: int| 0 <= k < n implies #[trigger] out.contains(cs[k]) by {
                if k < n - 1 {
                    assert(before.1.contains(cs[k]));
                } else {
                    assert(kid.1.contains(cs[k]) || seen.contains(cs[k]));
                }
            }
            assert forall|c: Seq<char>| #[trigger] out.contains(c) implies visited.contains(c) || exists|i: int|
                0 <= i < ks.len() && holds_id(#[trigger] ks[i], c) by {
                if !visited.contains(c) {
                    if before.1.contains(c) {
                        let i = choose|i: int| 0 <= i < before.0.len() && holds_id(#[trigger] before.0[i], c);
                        assert(ks[i] == before.0[i]);
                    } else {
                        assert(kid.1.contains(c));
                        assert(holds_id(kid.0, c));
                        assert(ks[ks.len() - 1] == kid.0);
                    }
                }
            }
            assert forall|i: int, m: Tree<V>, c: Seq<char>|
                0 <= i < ks.len() && #[trigger] tree_subtrees(ks[i]).contains(m) && #[trigger] g(id_of(m.value)).1.contains(c)
                    implies out.contains(c) by {
                if i < before.0.len() {
                    assert(ks[i] == before.0[i]);
                    assert(before.1.contains(c));
                } else {
                    assert(ks[i] == kid.0);
                    assert(kid.1.contains(c));
                }
            }
        }
    }
    assert forall|c: Seq<char>| #[trigger] res.1.contains(c) implies visited.contains(c) || exists|i: int|
        0 <= i < res.0.len() && holds_id(#[trigger] res.0[i], c) by {
        if !visited.contains(c) {
            assert(n > 0);
            let before = walked_children(ids, g, visited, cs, (n - 1) as nat);
            let seen = before.1.union(visited);
            if seen.contains(cs[n - 1]) {
                let i = choose|i: int| 0 <= i < before.0.len() && holds_id(#[trigger] before.0[i], c);
                assert(res.0[i] == before.0[i]);
            } else {
                let kid = walked(ids, g, seen, cs[n - 1]);
                let ks = before.0.push(kid.0);
                let i = choose|i: int| 0 <= i < ks.len() && holds_id(#[trigger] ks[i], c);
                assert(res.0[i] == ks[i]);
            }
        }
    }
}

/// Under `Merge(ReplaceElements, _)` every element of the last occurrence in pre-order
/// of an identity that the reconciled pattern holds is held by the reconciled pattern
/// too (where merging keeps the first value's identity).
pub proof fn lemma_replace_elements_keeps_last_occurrence<V: HasIdentity<V, Symbol> + Mergeable>(
    policy: ReconciliationPolicy<V::MergeStrategy>,
    t: Tree<V>,
    r: Tree<V>,
    n: Tree<V>,
    o: Tree<V>,
    k: int,
)
    requires
        policy matches ReconciliationPolicy::Merge(ElementMergeStrategy::ReplaceElements, _),
        forall|s: V::MergeStrategy, a: V, b: V| #[trigger] id_of(V::merge_spec(s, a, b)) == id_of(a),
        r == reconciled(policy, t),
        tree_subtrees(r).contains(n),
        is_last_occurrence(t, id_of(n.value), o),
        0 <= k < o.children.len(),
    ensures
        holds_id(r, id_of(o.children[k].value)),
{
    let ids = identities(t);
    let g = resolution(policy, t);
    let x0 = id_of(t.value);
    lemma_resolution_closed(policy, t);
    lemma_walked_reach(ids, g, Set::empty(), x0);
    let out = walked(ids, g, Set::empty(), x0).1;
    let y = id_of(n.value);
    let subs = tree_subtrees(t);
    let i = choose|i: int|
        0 <= i < subs.len() && #[trigger] subs[i] == o && id_of(o.value) == y && forall|j: int|
            i < j < subs.len() ==> id_of(#[trigger] subs[j].value) != y;
    let f = crate::reconcile::has_id::<V>(y);
    assert forall|j: int| i < j < subs.len() implies !f(#[trigger] subs[j]) by {
        assert(id_of(subs[j].value) != y);
    }
    lemma_filter_last(subs, f, i);
    assert(occurrences(t, y) == subs.filter(f));
    assert(g(y).1 == ids_of(o.children));
    let c = id_of(o.children[k].value);
    assert(ids_of(o.children)[k] == c);
    assert(g(id_of(n.value)).1.contains(c));
    assert(out.contains(c));
}

/// A list of a sequence of lists contributes its members to their flattening.
proof fn lemma_flatten_has(lists: Seq<Seq<Seq<char>>>, j: int, c: Seq<char>)
    requires
        0 <= j < lists.len(),
        lists[j].contains(c),
    ensures
        lists.flatten_alt().contains(c),
    decreases lists.len(),
{
    let a = lists.drop_last().flatten_alt();
    let b = lists.last();
    crate::tree::lemma_contains_add(a, b, c);
    if j < lists.len() - 1 {
        assert(lists.drop_last()[j] == lists[j]);
        lemma_flatten_has(lists.drop_last(), j, c);
    }
}

/// `o` is an occurrence in `t` of the identity `x` whose elements include one of
/// identity `c`.
pub open spec fn occurrence_with_element<V: HasIdentity<V, Symbol>>(t: Tree<V>, x: Seq<char>, o: Tree<V>, c: Seq<char>) -> bool {
    &&& tree_subtrees(t).contains(o)
    &&& id_of(o.value) == x
    &&& ids_of(o.children).contains(c)
}

/// Under every policy but `Merge(ReplaceElements, _)`, an identity's element
/// identities are those of all its occurrences: the element `c` is among them exactly
/// when some occurrence has it.
proof fn lemma_gathered_children<V: HasIdentity<V, Symbol> + Mergeable>(
    policy: ReconciliationPolicy<V::MergeStrategy>,
    t: Tree<V>,
    x: Seq<char>,
    c: Seq<char>,
)
    requires
        !(policy matches ReconciliationPolicy::Merge(ElementMergeStrategy::ReplaceElements, _)),
    ensures
        resolved_children(policy, occurrences(t, x)).contains(c) <==> exists|o: Tree<V>|
            #[trigger] occurrence_with_element(t, x, o, c),
{
    let subs = tree_subtrees(t);
    let os = occurrences(t, x);
    let lists = child_id_lists(os);
    let all = lists.flatten_alt();
    lemma_first_appearances(all);
    assert(resolved_children(policy, os).contains(c) <==> all.contains(c));
    if all.contains(c) {
        crate::reconcile::lemma_flatten_contains(lists, c);
        let j = choose|j: int| 0 <= j < lists.len() && #[trigger] lists[j].contains(c);
        assert(os.contains(os[j]));
        subs.lemma_filter_contains_rev(has_id(x), os[j]);
        subs.lemma_filter_pred(has_id(x), j);
        assert(occurrence_with_element(t, x, os[j], c));
    }
    if exists|o: Tree<V>| #[trigger] occurrence_with_element(t, x, o, c) {
        let o = choose|o: Tree<V>| #[trigger] occurrence_with_element(t, x, o, c);
        let k = choose|k: int| 0 <= k < subs.len() && subs[k] == o;
        subs.lemma_filter_contains(has_id(x), k);
        let j = choose|j: int| 0 <= j < os.len() && os[j] == o;
        assert(lists[j] == ids_of(o.children));
        lemma_flatten_has(lists, j, c);
    }
}

/// Under the policies that gather elements (all but `Strict` and
/// `Merge(ReplaceElements, _)`), the elements of an identity are, by identity, those
/// of all its occurrences: every element of a node of the reconciled pattern is an
/// element of some occurrence of the node's identity in `t`, and every element of
/// every such occurrence is held by the reconciled pattern (where merging keeps the
/// first value's identity).
pub proof fn lemma_gathered_elements_are_those_of_all_occurrences<V: HasIdentity<V, Symbol> + Mergeable>(
    policy: ReconciliationPolicy<V::MergeStrategy>,
    t: Tree<V>,
    r: Tree<V>,
    n: Tree<V>,
    c: Seq<char>,
)
    requires
        !(policy is Strict),
        !(policy matches ReconciliationPolicy::Merge(ElementMergeStrategy::ReplaceElements, _)),
        forall|s: V::MergeStrategy, a: V, b: V| #[trigger] id_of(V::merge_spec(s, a, b)) == id_of(a),
        r == reconciled(policy, t),
        tree_subtrees(r).contains(n),
    ensures
        ids_of(n.children).contains(c) ==> exists|o: Tree<V>| #[trigger] occurrence_with_element(t, id_of(n.value), o, c),
        (exists|o: Tree<V>| #[trigger] occurrence_with_element(t, id_of(n.value), o, c)) ==> holds_id(r, c),
{
    let ids = identities(t);
    let g = resolution(policy, t);
    let x0 = id_of(t.value);
    let y = id_of(n.value);
    lemma_resolution_closed(policy, t);
    lemma_walked_edges(ids, g, Set::empty(), x0);
    lemma_walked_reach(ids, g, Set::empty(), x0);
    lemma_gathered_children(policy, t, y, c);
    assert(g(y).1 == resolved_children(policy, occurrences(t, y)));
    if ids_of(n.children).contains(c) {
        let j = choose|j: int| 0 <= j < ids_of(n.children).len() && ids_of(n.children)[j] == c;
        assert(id_of(n.children[j].value) == c);
        assert(g(y).1.contains(c));
    }
    if exists|o: Tree<V>| #[trigger] occurrence_with_element(t, y, o, c) {
        assert(g(y).1.contains(c));
        assert(walked(ids, g, Set::empty(), x0).1.contains(c));
    }
}

} // verus!
