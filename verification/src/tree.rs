use vstd::prelude::*;

verus! {

/// The mathematical model of a pattern: a value and an ordered sequence of child trees.
pub struct Tree<V> {
    pub value: V,
    pub children: Seq<Tree<V>>,
}

/// A tree without children.
pub open spec fn leaf<V>(v: V) -> Tree<V> {
    Tree { value: v, children: Seq::empty() }
}

/// Number of nodes of a tree.
pub open spec fn tree_size<V>(t: Tree<V>) -> nat
    decreases t,
{
    1 + forest_size(t.children)
}

/// Number of nodes of a forest.
pub open spec fn forest_size<V>(s: Seq<Tree<V>>) -> nat
    decreases s,
{
    if s.len() == 0 {
        0
    } else {
        forest_size(s.drop_last()) + tree_size(s.last())
    }
}

/// Length of the longest path from the root to a leaf (0 for a leaf).
pub open spec fn tree_depth<V>(t: Tree<V>) -> nat
    decreases t,
{
    if t.children.len() == 0 {
        0
    } else {
        1 + forest_depth(t.children)
    }
}

/// Largest depth among the trees of a forest (0 for an empty forest).
pub open spec fn forest_depth<V>(s: Seq<Tree<V>>) -> nat
    decreases s,
{
    if s.len() == 0 {
        0
    } else {
        let a = forest_depth(s.drop_last());
        let b = tree_depth(s.last());
        if a >= b { a } else { b }
    }
}

/// Values of a tree in pre-order (node first, then children left to right).
pub open spec fn tree_values<V>(t: Tree<V>) -> Seq<V>
    decreases t,
{
    seq![t.value] + forest_values(t.children)
}

/// Values of a forest in pre-order.
pub open spec fn forest_values<V>(s: Seq<Tree<V>>) -> Seq<V>
    decreases s,
{
    if s.len() == 0 {
        Seq::empty()
    } else {
        forest_values(s.drop_last()) + tree_values(s.last())
    }
}

/// All subtrees of a tree in pre-order, starting with the tree itself.
pub open spec fn tree_subtrees<V>(t: Tree<V>) -> Seq<Tree<V>>
    decreases t,
{
    seq![t] + forest_subtrees(t.children)
}

/// All subtrees of a forest in pre-order.
pub open spec fn forest_subtrees<V>(s: Seq<Tree<V>>) -> Seq<Tree<V>>
    decreases s,
{
    if s.len() == 0 {
        Seq::empty()
    } else {
        forest_subtrees(s.drop_last()) + tree_subtrees(s.last())
    }
}

/// Two trees have the same shape: the same number of children at every node.
pub open spec fn same_shape<V, W>(a: Tree<V>, b: Tree<W>) -> bool
    decreases a,
{
    &&& a.children.len() == b.children.len()
    &&& forall|i: int|
        0 <= i < a.children.len() ==> same_shape(#[trigger] a.children[i], b.children[i])
}

// ---------------------------------------------------------------------------
// Lemmas
// ---------------------------------------------------------------------------

/// The prefix of length `i + 1` is the prefix of length `i` followed by `s[i]`.
pub proof fn lemma_take_step<A>(s: Seq<A>, i: int)
    requires
        0 <= i < s.len(),
    ensures
        s.take(i + 1).drop_last() == s.take(i),
        s.take(i + 1).last() == s[i],
        s.take(i + 1).len() == i + 1,
        s.take(i + 1) == s.take(i).push(s[i]),
{
    assert(s.take(i + 1).drop_last() =~= s.take(i));
    assert(s.take(i + 1) =~= s.take(i).push(s[i]));
}

/// A concatenation contains exactly what its parts contain.
pub proof fn lemma_contains_add<A>(a: Seq<A>, b: Seq<A>, x: A)
    ensures
        (a + b).contains(x) <==> a.contains(x) || b.contains(x),
{
    if a.contains(x) {
        let k = choose|k: int| 0 <= k < a.len() && a[k] == x;
        assert((a + b)[k] == x);
    }
    if b.contains(x) {
        let k = choose|k: int| 0 <= k < b.len() && b[k] == x;
        assert((a + b)[a.len() + k] == x);
    }
    if (a + b).contains(x) {
        let k = choose|k: int| 0 <= k < (a + b).len() && (a + b)[k] == x;
        if k < a.len() {
            assert(a[k] == x);
        } else {
            assert(b[k - a.len()] == x);
        }
    }
}

/// The size of a prefix of a forest, plus the next tree, is bounded by the forest size.
pub proof fn lemma_forest_size_prefix<V>(s: Seq<Tree<V>>, i: int)
    requires
        0 <= i <= s.len(),
    ensures
        forest_size(s.take(i)) <= forest_size(s),
        i < s.len() ==> forest_size(s.take(i)) + tree_size(s[i]) <= forest_size(s),
    decreases s.len(),
{
    if i == s.len() {
        assert(s.take(i) =~= s);
    } else {
        lemma_forest_size_prefix(s.drop_last(), i);
        assert(s.drop_last().take(i) =~= s.take(i));
        if i + 1 < s.len() {
            lemma_forest_size_prefix(s.drop_last(), i + 1);
            lemma_take_step(s, i);
            assert(s.drop_last().take(i + 1) =~= s.take(i + 1));
        } else {
            assert(s.drop_last() =~= s.take(i));
        }
    }
}

/// A child is smaller than its parent.
pub proof fn lemma_child_size<V>(t: Tree<V>, i: int)
    requires
        0 <= i < t.children.len(),
    ensures
        tree_size(t.children[i]) < tree_size(t),
{
    lemma_forest_size_prefix(t.children, i);
}

/// Every tree has at least one node.
pub proof fn lemma_size_positive<V>(t: Tree<V>)
    ensures
        tree_size(t) >= 1,
{
}

/// The depth of a forest bounds the depth of each of its trees.
pub proof fn lemma_forest_depth_bound<V>(s: Seq<Tree<V>>, i: int)
    requires
        0 <= i < s.len(),
    ensures
        tree_depth(s[i]) <= forest_depth(s),
    decreases s.len(),
{
    if i < s.len() - 1 {
        lemma_forest_depth_bound(s.drop_last(), i);
    }
}

/// The depth of a tree is smaller than its size; the depth of a forest is at most its size.
pub proof fn lemma_depth_lt_size<V>(t: Tree<V>)
    ensures
        tree_depth(t) < tree_size(t),
    decreases t,
{
    lemma_forest_depth_le_size(t.children);
}

pub proof fn lemma_forest_depth_le_size<V>(s: Seq<Tree<V>>)
    ensures
        forest_depth(s) <= forest_size(s),
        s.len() > 0 ==> forest_depth(s) < forest_size(s),
    decreases s,
{
    if s.len() > 0 {
        lemma_forest_depth_le_size(s.drop_last());
        lemma_depth_lt_size(s.last());
    }
}

/// Prefix step for forest functions.
pub proof fn lemma_forest_step<V>(s: Seq<Tree<V>>, i: int)
    requires
        0 <= i < s.len(),
    ensures
        forest_size(s.take(i + 1)) == forest_size(s.take(i)) + tree_size(s[i]),
        forest_values(s.take(i + 1)) == forest_values(s.take(i)) + tree_values(s[i]),
        forest_subtrees(s.take(i + 1)) == forest_subtrees(s.take(i)) + tree_subtrees(s[i]),
        forest_depth(s.take(i + 1)) == (if forest_depth(s.take(i)) >= tree_depth(s[i]) {
            forest_depth(s.take(i))
        } else {
            tree_depth(s[i])
        }),
{
    lemma_take_step(s, i);
}

/// The whole forest is its longest prefix.
pub proof fn lemma_take_full<A>(s: Seq<A>)
    ensures
        s.take(s.len() as int) == s,
{
    assert(s.take(s.len() as int) =~= s);
}

/// What the pre-order values of a forest contain.
pub proof fn lemma_forest_values_contains<V>(s: Seq<Tree<V>>, x: V)
    ensures
        forest_values(s).contains(x) <==> exists|j: int|
            0 <= j < s.len() && #[trigger] tree_values(s[j]).contains(x),
    decreases s.len(),
{
    if s.len() > 0 {
        lemma_forest_values_contains(s.drop_last(), x);
        lemma_contains_add(forest_values(s.drop_last()), tree_values(s.last()), x);
        if exists|j: int| 0 <= j < s.len() && #[trigger] tree_values(s[j]).contains(x) {
            let j = choose|j: int| 0 <= j < s.len() && #[trigger] tree_values(s[j]).contains(x);
            if j < s.len() - 1 {
                assert(tree_values(s.drop_last()[j]).contains(x));
            }
        }
    }
}

/// What the pre-order values of a tree contain.
pub proof fn lemma_tree_values_contains<V>(t: Tree<V>, x: V)
    ensures
        tree_values(t).contains(x) <==> x == t.value || exists|j: int|
            0 <= j < t.children.len() && #[trigger] tree_values(t.children[j]).contains(x),
{
    lemma_forest_values_contains(t.children, x);
    lemma_contains_add(seq![t.value], forest_values(t.children), x);
    assert(seq![t.value].contains(x) <==> x == t.value) by {
        if x == t.value {
            assert(seq![t.value][0] == x);
        }
    }
}

/// What the pre-order subtrees of a forest contain.
pub proof fn lemma_forest_subtrees_contains<V>(s: Seq<Tree<V>>, x: Tree<V>)
    ensures
        forest_subtrees(s).contains(x) <==> exists|j: int|
            0 <= j < s.len() && #[trigger] tree_subtrees(s[j]).contains(x),
    decreases s.len(),
{
    if s.len() > 0 {
        lemma_forest_subtrees_contains(s.drop_last(), x);
        lemma_contains_add(forest_subtrees(s.drop_last()), tree_subtrees(s.last()), x);
        if exists|j: int| 0 <= j < s.len() && #[trigger] tree_subtrees(s[j]).contains(x) {
            let j = choose|j: int| 0 <= j < s.len() && #[trigger] tree_subtrees(s[j]).contains(x);
            if j < s.len() - 1 {
                assert(tree_subtrees(s.drop_last()[j]).contains(x));
            }
        }
    }
}

/// What the pre-order subtrees of a tree contain.
pub proof fn lemma_tree_subtrees_contains<V>(t: Tree<V>, x: Tree<V>)
    ensures
        tree_subtrees(t).contains(x) <==> x == t || exists|j: int|
            0 <= j < t.children.len() && #[trigger] tree_subtrees(t.children[j]).contains(x),
{
    lemma_forest_subtrees_contains(t.children, x);
    lemma_contains_add(seq![t], forest_subtrees(t.children), x);
    assert(seq![t].contains(x) <==> x == t) by {
        if x == t {
            assert(seq![t][0] == x);
        }
    }
}

} // verus!

verus! {

/// `b` is a copy of `a`: the same shape, and every value of `b` is a clone of the
/// corresponding value of `a`.
pub open spec fn cloned_tree<V: Clone>(a: Tree<V>, b: Tree<V>) -> bool
    decreases a,
{
    &&& cloned::<V>(a.value, b.value)
    &&& a.children.len() == b.children.len()
    &&& forall|i: int|
        0 <= i < a.children.len() ==> cloned_tree(#[trigger] a.children[i], b.children[i])
}


/// A tree has as many pre-order values as nodes.
pub proof fn lemma_values_len<V>(t: Tree<V>)
    ensures
        tree_values(t).len() == tree_size(t),
    decreases t,
{
    lemma_forest_values_len(t.children);
}

/// A forest has as many pre-order values as nodes.
pub proof fn lemma_forest_values_len<V>(s: Seq<Tree<V>>)
    ensures
        forest_values(s).len() == forest_size(s),
    decreases s,
{
    if s.len() > 0 {
        lemma_forest_values_len(s.drop_last());
        lemma_values_len(s.last());
    }
}

/// Trees of the same shape have the same size.
pub proof fn lemma_same_shape_size<V, W>(a: Tree<V>, b: Tree<W>)
    requires
        same_shape(a, b),
    ensures
        tree_size(a) == tree_size(b),
    decreases a,
{
    lemma_same_shape_forest_size(a.children, b.children);
}

/// Forests of pairwise same-shaped trees have the same size.
pub proof fn lemma_same_shape_forest_size<V, W>(a: Seq<Tree<V>>, b: Seq<Tree<W>>)
    requires
        a.len() == b.len(),
        forall|i: int| 0 <= i < a.len() ==> same_shape(#[trigger] a[i], b[i]),
    ensures
        forest_size(a) == forest_size(b),
    decreases a,
{
    if a.len() > 0 {
        lemma_same_shape_forest_size(a.drop_last(), b.drop_last());
        lemma_same_shape_size(a.last(), b.last());
    }
}

/// Pre-order values of a concatenation.
pub proof fn lemma_forest_values_add<V>(a: Seq<Tree<V>>, b: Seq<Tree<V>>)
    ensures
        forest_values(a + b) == forest_values(a) + forest_values(b),
    decreases b.len(),
{
    if b.len() == 0 {
        assert(a + b =~= a);
        assert(forest_values(a) + forest_values(b) =~= forest_values(a));
    } else {
        lemma_forest_values_add(a, b.drop_last());
        assert((a + b).drop_last() =~= a + b.drop_last());
        assert((a + b).last() == b.last());
        assert(forest_values(a + b) =~= forest_values(a) + forest_values(b));
    }
}

/// Splitting the pre-order values of a tree around its `i`-th child.
pub proof fn lemma_values_split<V>(t: Tree<V>, i: int)
    requires
        0 <= i < t.children.len(),
    ensures
        tree_values(t) == (seq![t.value] + forest_values(t.children.take(i))) + tree_values(
            t.children[i],
        ) + forest_values(t.children.skip(i + 1)),
        forest_values(t.children.take(i + 1)) == forest_values(t.children.take(i))
            + tree_values(t.children[i]),
{
    let s = t.children;
    lemma_take_step(s, i);
    lemma_forest_values_add(s.take(i + 1), s.skip(i + 1));
    assert(s.take(i + 1) + s.skip(i + 1) =~= s);
}


/// A copy has the shape of the value copied.
pub proof fn lemma_cloned_tree_shape<V: Clone>(a: Tree<V>, b: Tree<V>)
    requires
        cloned_tree(a, b),
    ensures
        same_shape(a, b),
        tree_size(a) == tree_size(b),
    decreases a,
{
    assert forall|i: int| 0 <= i < a.children.len() implies same_shape(#[trigger] a.children[i], b.children[i]) by {
        lemma_cloned_tree_shape(a.children[i], b.children[i]);
    }
    lemma_same_shape_size(a, b);
}

} // verus!
