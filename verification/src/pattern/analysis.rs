use vstd::prelude::*;

use crate::pattern::{lemma_pattern_view, Pattern};
use crate::text::{self, decimal};
use crate::tree::{self, forest_depth, tree_depth, Tree};

verus! {

/// Number of nodes of `t` at depth `d` (the root sits at depth 0).
pub open spec fn level_count<V>(t: Tree<V>, d: nat) -> nat
    decreases t,
{
    if d == 0 {
        1
    } else {
        forest_level_count(t.children, (d - 1) as nat)
    }
}

/// Number of nodes at depth `d` over the trees of `s` (their roots at depth 0).
pub open spec fn forest_level_count<V>(s: Seq<Tree<V>>, d: nat) -> nat
    decreases s,
{
    if s.len() == 0 {
        0
    } else {
        forest_level_count(s.drop_last(), d) + level_count(s.last(), d)
    }
}

/// The most elements that a node of `t` at depth `d` has (0 when no node sits there).
pub open spec fn level_max<V>(t: Tree<V>, d: nat) -> nat
    decreases t,
{
    if d == 0 {
        t.children.len()
    } else {
        forest_level_max(t.children, (d - 1) as nat)
    }
}

/// The most elements that a node at depth `d` has over the trees of `s`.
pub open spec fn forest_level_max<V>(s: Seq<Tree<V>>, d: nat) -> nat
    decreases s,
{
    if s.len() == 0 {
        0
    } else {
        let a = forest_level_max(s.drop_last(), d);
        let b = level_max(s.last(), d);
        if a >= b { a } else { b }
    }
}

/// Number of levels that the trees of `s` span.
pub open spec fn forest_levels<V>(s: Seq<Tree<V>>) -> nat {
    if s.len() == 0 {
        0
    } else {
        forest_depth(s) + 1
    }
}

/// `s[k]`, or 0 past its end.
pub open spec fn at(s: Seq<usize>, k: int) -> int {
    if 0 <= k < s.len() {
        s[k] as int
    } else {
        0
    }
}

/// Nodes of `t` on the levels below `n`.
pub open spec fn level_total<V>(t: Tree<V>, n: nat) -> nat
    decreases n,
{
    if n == 0 {
        0
    } else {
        level_total(t, (n - 1) as nat) + level_count(t, (n - 1) as nat)
    }
}

/// Nodes of the trees of `s` on the levels below `n`.
pub open spec fn forest_level_total<V>(s: Seq<Tree<V>>, n: nat) -> nat
    decreases n,
{
    if n == 0 {
        0
    } else {
        forest_level_total(s, (n - 1) as nat) + forest_level_count(s, (n - 1) as nat)
    }
}

/// Sum of a sequence of counts.
pub open spec fn seq_sum(s: Seq<usize>) -> nat
    decreases s.len(),
{
    if s.len() == 0 {
        0
    } else {
        seq_sum(s.drop_last()) + s.last() as nat
    }
}


/// Structural figures of a pattern.
#[derive(Debug, Clone)]
pub struct StructureAnalysis {
    /// Number of nodes on each level (index = depth).
    pub depth_distribution: Vec<usize>,
    /// The most elements of a node on each level that has elements (index = depth).
    pub element_counts: Vec<usize>,
    /// Shapes recognised: "atomic", "linear", "tree", "balanced" or "irregular".
    pub nesting_patterns: Vec<String>,
    /// One-line description.
    pub summary: String,
}

/// The shape labels for a structure of `levels` levels whose per-level element
/// maxima are `counts`.
pub open spec fn nesting_labels(levels: nat, counts: Seq<usize>) -> Seq<Seq<char>> {
    if levels <= 1 {
        seq!["atomic"@]
    } else {
        let linear = forall|k: int| 0 <= k < counts.len() ==> counts[k] <= 1;
        let branching = exists|k: int| 0 <= k < counts.len() && counts[k] > 1;
        let balanced = counts.len() >= 2 && counts[0] > 1 && forall|k: int|
            1 <= k < counts.len() ==> 2 * #[trigger] counts[k] >= counts[0] && counts[k] <= 2 * counts[0];
        let labels = (if linear { seq!["linear"@] } else { Seq::empty() }) + (if branching {
            seq!["tree"@]
        } else {
            Seq::empty()
        }) + (if balanced { seq!["balanced"@] } else { Seq::empty() });
        if labels.len() == 0 {
            seq!["irregular"@]
        } else {
            labels
        }
    }
}

/// The one-line description of a structure of `levels` levels and `nodes` nodes
/// whose main shape is `kind`.
pub open spec fn summary_text(levels: nat, nodes: nat, kind: Seq<char>) -> Seq<char> {
    "Pattern with "@ + decimal(levels) + " level"@ + (if levels == 1 {
        ""@
    } else {
        "s"@
    }) + ", "@ + decimal(nodes) + " node"@ + (if nodes == 1 {
        ""@
    } else {
        "s"@
    }) + ", "@ + kind + "-like structure"@
}

/// The per-level node counts of `t`.
pub open spec fn depth_distribution_of<V>(t: Tree<V>) -> Seq<usize> {
    Seq::new(tree_depth(t) + 1, |k: int| level_count(t, k as nat) as usize)
}

/// The per-level element maxima of `t`, for the levels that have elements.
pub open spec fn element_counts_of<V>(t: Tree<V>) -> Seq<usize> {
    Seq::new(tree_depth(t), |k: int| level_max(t, k as nat) as usize)
}

/// The text of each string.
pub open spec fn string_texts(s: Seq<String>) -> Seq<Seq<char>> {
    s.map_values(|x: String| x@)
}

// ---------------------------------------------------------------------------
// Lemmas
// ---------------------------------------------------------------------------

/// Below the deepest level there is no node, so neither count nor elements.
pub proof fn lemma_beyond_depth<V>(t: Tree<V>, d: nat)
    ensures
        d > tree_depth(t) ==> level_count(t, d) == 0,
        d >= tree_depth(t) ==> level_max(t, d) == 0,
    decreases t, 1nat,
{
    if d > 0 {
        lemma_forest_beyond_depth(t.children, (d - 1) as nat);
    }
}

/// Forest version of [`lemma_beyond_depth`].
pub proof fn lemma_forest_beyond_depth<V>(s: Seq<Tree<V>>, d: nat)
    ensures
        d >= forest_levels(s) ==> forest_level_count(s, d) == 0,
        (s.len() == 0 || d >= forest_depth(s)) ==> forest_level_max(s, d) == 0,
    decreases s, 0nat,
{
    if s.len() > 0 {
        lemma_forest_beyond_depth(s.drop_last(), d);
        lemma_beyond_depth(s.last(), d);
        assert(forest_depth(s) >= forest_depth(s.drop_last()));
        assert(forest_depth(s) >= tree_depth(s.last()));
    }
}

/// Every level above the deepest has a node with an element.
pub proof fn lemma_level_max_positive<V>(t: Tree<V>, d: nat)
    requires
        d < tree_depth(t),
    ensures
        level_max(t, d) >= 1,
    decreases t, 1nat,
{
    if d > 0 {
        lemma_forest_level_max_positive(t.children, (d - 1) as nat);
    }
}

/// Forest version of [`lemma_level_max_positive`].
pub proof fn lemma_forest_level_max_positive<V>(s: Seq<Tree<V>>, d: nat)
    requires
        s.len() > 0,
        d < forest_depth(s),
    ensures
        forest_level_max(s, d) >= 1,
    decreases s, 0nat,
{
    let a = forest_depth(s.drop_last());
    let b = tree_depth(s.last());
    if d < b {
        lemma_level_max_positive(s.last(), d);
    } else {
        assert(d < a);
        lemma_forest_level_max_positive(s.drop_last(), d);
    }
}

/// A prefix of a forest counts no more nodes at a level than the whole forest.
pub proof fn lemma_forest_level_count_prefix<V>(s: Seq<Tree<V>>, i: int, d: nat)
    requires
        0 <= i <= s.len(),
    ensures
        forest_level_count(s.take(i), d) <= forest_level_count(s, d),
    decreases s.len() - i,
{
    if i < s.len() {
        tree::lemma_take_step(s, i);
        assert(s.take(i + 1).drop_last() =~= s.take(i));
        lemma_forest_level_count_prefix(s, i + 1, d);
    } else {
        assert(s.take(i) =~= s);
    }
}

/// A level holds no more nodes than the whole tree.
pub proof fn lemma_level_count_le_size<V>(t: Tree<V>, d: nat)
    ensures
        level_count(t, d) <= tree::tree_size(t),
    decreases t, 1nat,
{
    if d > 0 {
        lemma_forest_level_count_le_size(t.children, (d - 1) as nat);
    }
}

/// Forest version of [`lemma_level_count_le_size`].
pub proof fn lemma_forest_level_count_le_size<V>(s: Seq<Tree<V>>, d: nat)
    ensures
        forest_level_count(s, d) <= tree::forest_size(s),
    decreases s, 0nat,
{
    if s.len() > 0 {
        lemma_forest_level_count_le_size(s.drop_last(), d);
        lemma_level_count_le_size(s.last(), d);
    }
}

/// No node has more elements than the tree has nodes.
pub proof fn lemma_level_max_le_size<V>(t: Tree<V>, d: nat)
    ensures
        level_max(t, d) < tree::tree_size(t),
    decreases t, 1nat,
{
    if d == 0 {
        lemma_forest_len_le_size(t.children);
    } else {
        lemma_forest_level_max_le_size(t.children, (d - 1) as nat);
    }
}

/// Forest version of [`lemma_level_max_le_size`].
pub proof fn lemma_forest_level_max_le_size<V>(s: Seq<Tree<V>>, d: nat)
    ensures
        forest_level_max(s, d) <= tree::forest_size(s),
    decreases s, 0nat,
{
    if s.len() > 0 {
        lemma_forest_level_max_le_size(s.drop_last(), d);
        lemma_level_max_le_size(s.last(), d);
    }
}

/// A forest has at least as many nodes as trees.
pub proof fn lemma_forest_len_le_size<V>(s: Seq<Tree<V>>)
    ensures
        s.len() <= tree::forest_size(s),
    decreases s.len(),
{
    if s.len() > 0 {
        lemma_forest_len_le_size(s.drop_last());
        tree::lemma_size_positive(s.last());
    }
}

/// Counting a tree level by level: the root, then the levels of its children.
pub proof fn lemma_level_total_unfold<V>(t: Tree<V>, n: nat)
    requires
        n >= 1,
    ensures
        level_total(t, n) == 1 + forest_level_total(t.children, (n - 1) as nat),
    decreases n,
{
    if n > 1 {
        lemma_level_total_unfold(t, (n - 1) as nat);
        assert(level_count(t, (n - 1) as nat) == forest_level_count(t.children, (n - 2) as nat));
    } else {
        assert(level_total(t, 0) == 0);
        assert(forest_level_total(t.children, 0) == 0);
    }
}

/// Counting a forest level by level splits over its last tree.
pub proof fn lemma_forest_level_total_split<V>(s: Seq<Tree<V>>, n: nat)
    requires
        s.len() > 0,
    ensures
        forest_level_total(s, n) == forest_level_total(s.drop_last(), n) + level_total(s.last(), n),
    decreases n,
{
    if n > 0 {
        lemma_forest_level_total_split(s, (n - 1) as nat);
    }
}

/// Summing the levels of a tree, down past its deepest, counts every node.
pub proof fn lemma_level_total_is_size<V>(t: Tree<V>, n: nat)
    requires
        n > tree_depth(t),
    ensures
        level_total(t, n) == tree::tree_size(t),
    decreases t, 1nat,
{
    lemma_level_total_unfold(t, n);
    lemma_forest_level_total_is_size(t.children, (n - 1) as nat);
}

/// Forest version of [`lemma_level_total_is_size`].
pub proof fn lemma_forest_level_total_is_size<V>(s: Seq<Tree<V>>, n: nat)
    requires
        n >= forest_levels(s),
    ensures
        forest_level_total(s, n) == tree::forest_size(s),
    decreases s, 0nat,
{
    if s.len() == 0 {
        lemma_forest_level_total_empty(s, n);
    } else {
        lemma_forest_level_total_split(s, n);
        assert(forest_depth(s) >= tree_depth(s.last()));
        assert(forest_depth(s) >= forest_depth(s.drop_last()));
        lemma_level_total_is_size(s.last(), n);
        lemma_forest_level_total_is_size(s.drop_last(), n);
    }
}

/// An empty forest has no node on any level.
pub proof fn lemma_forest_level_total_empty<V>(s: Seq<Tree<V>>, n: nat)
    requires
        s.len() == 0,
    ensures
        forest_level_total(s, n) == 0,
    decreases n,
{
    if n > 0 {
        lemma_forest_level_total_empty(s, (n - 1) as nat);
    }
}

/// Summing the counts of the first `n` levels gives `level_total`.
pub proof fn lemma_seq_sum_levels<V>(t: Tree<V>, s: Seq<usize>)
    requires
        forall|k: int| 0 <= k < s.len() ==> #[trigger] s[k] == level_count(t, k as nat),
    ensures
        seq_sum(s) == level_total(t, s.len()),
    decreases s.len(),
{
    if s.len() > 0 {
        lemma_seq_sum_levels(t, s.drop_last());
    }
}

/// A prefix sums to no more than the whole.
pub proof fn lemma_seq_sum_prefix(s: Seq<usize>, i: int)
    requires
        0 <= i <= s.len(),
    ensures
        seq_sum(s.take(i)) <= seq_sum(s),
    decreases s.len() - i,
{
    if i < s.len() {
        tree::lemma_take_step(s, i);
        assert(s.take(i + 1).drop_last() =~= s.take(i));
        lemma_seq_sum_prefix(s, i + 1);
    } else {
        assert(s.take(i) =~= s);
    }
}

impl<V> Pattern<V> {
    /// Adds the nodes of this pattern, whose root sits at `current_depth`, to the
    /// per-level node counts, and raises the per-level element maxima.
    fn analyze_recursive(
        &self,
        current_depth: usize,
        depth_distribution: &mut Vec<usize>,
        element_counts: &mut Vec<usize>,
    )
        requires
            current_depth + tree_depth(self@) < usize::MAX,
            forall|j: nat|
                #[trigger] level_count(self@, j) + at(old(depth_distribution)@, current_depth + j)
                    <= usize::MAX,
        ensures
            final(depth_distribution)@.len() == vstd::math::max(
                old(depth_distribution)@.len() as int,
                current_depth + tree_depth(self@) + 1,
            ),
            forall|k: int|
                0 <= k < final(depth_distribution)@.len() ==> #[trigger] final(depth_distribution)@[k]
                    == at(old(depth_distribution)@, k) + (if k >= current_depth {
                    level_count(self@, (k - current_depth) as nat) as int
                } else {
                    0
                }),
            final(element_counts)@.len() == vstd::math::max(
                old(element_counts)@.len() as int,
                current_depth + tree_depth(self@) + 1,
            ),
            forall|k: int|
                0 <= k < final(element_counts)@.len() ==> #[trigger] final(element_counts)@[k]
                    == vstd::math::max(
                    at(old(element_counts)@, k),
                    if k >= current_depth {
                        level_max(self@, (k - current_depth) as nat) as int
                    } else {
                        0
                    },
                ),
        decreases self,
    {
        proof {
            lemma_pattern_view(*self);
        }
        let ghost t = self@;
        let ghost children = t.children;
        let ghost dd0 = depth_distribution@;
        let ghost ec0 = element_counts@;
        let ghost depth = current_depth as int;
        while depth_distribution.len() <= current_depth
            invariant
                depth_distribution@.len() >= dd0.len(),
                depth_distribution@.len() > dd0.len() ==> depth_distribution@.len() <= current_depth + 1,
                forall|k: int| 0 <= k < depth_distribution@.len() ==> #[trigger] depth_distribution@[k] == at(dd0, k),
            decreases current_depth + 1 - depth_distribution@.len(),
        {
            depth_distribution.push(0);
        }
        while element_counts.len() <= current_depth
            invariant
                element_counts@.len() >= ec0.len(),
                element_counts@.len() > ec0.len() ==> element_counts@.len() <= current_depth + 1,
                forall|k: int| 0 <= k < element_counts@.len() ==> #[trigger] element_counts@[k] == at(ec0, k),
            decreases current_depth + 1 - element_counts@.len(),
        {
            element_counts.push(0);
        }
        proof {
            assert(level_count(t, 0) == 1);
            assert(at(dd0, depth) + 1 <= usize::MAX);
        }
        let c = depth_distribution[current_depth];
        depth_distribution.set(current_depth, c + 1);
        let current_count = self.elements.len();
        if current_count > element_counts[current_depth] {
            element_counts.set(current_depth, current_count);
        }
        proof {
            assert(forest_levels(children.take(0)) == 0);
            lemma_forest_beyond_depth(children.take(0), 0);
        }
        let mut i: usize = 0;
        while i < self.elements.len()
            invariant
                i <= self.elements.len(),
                t == self@,
                children == t.children,
                children.len() == self.elements.len(),
                forall|k: int| 0 <= k < self.elements.len() ==> #[trigger] children[k] == self.elements@[k]@,
                depth == current_depth,
                current_depth + tree_depth(t) < usize::MAX,
                tree_depth(t) == (if children.len() == 0 { 0 } else { 1 + forest_depth(children) }),
                forall|j: nat|
                    #[trigger] level_count(t, j) + at(dd0, depth + j) <= usize::MAX,
                depth_distribution@.len() == vstd::math::max(
                    dd0.len() as int,
                    depth + 1 + forest_levels(children.take(i as int)),
                ),
                forall|k: int|
                    0 <= k < depth_distribution@.len() ==> #[trigger] depth_distribution@[k] == at(dd0, k)
                        + (if k == depth {
                        1
                    } else if k > depth {
                        forest_level_count(children.take(i as int), (k - depth - 1) as nat) as int
                    } else {
                        0
                    }),
                element_counts@.len() == vstd::math::max(
                    ec0.len() as int,
                    depth + 1 + forest_levels(children.take(i as int)),
                ),
                forall|k: int|
                    0 <= k < element_counts@.len() ==> #[trigger] element_counts@[k]
                        == vstd::math::max(
                        at(ec0, k),
                        if k == depth {
                            children.len() as int
                        } else if k > depth {
                            forest_level_max(children.take(i as int), (k - depth - 1) as nat) as int
                        } else {
                            0
                        },
                    ),
            decreases self.elements.len() - i,
        {
            let ghost dd1 = depth_distribution@;
            let ghost ec1 = element_counts@;
            let ghost pre = children.take(i as int);
            let ghost post = children.take(i + 1);
            let ghost c = children[i as int];
            proof {
                tree::lemma_forest_depth_bound(children, i as int);
                tree::lemma_take_step(children, i as int);
                assert(post.drop_last() =~= pre);
                assert(post.last() == c);
                assert forall|j: nat|
                    #[trigger] level_count(c, j) + at(dd1, current_depth + 1 + j) <= usize::MAX by {
                    lemma_forest_level_count_prefix(children, i + 1, j);
                    assert(level_count(t, j + 1) == forest_level_count(children, j));
                    assert(level_count(t, j + 1) + at(dd0, depth + (j + 1)) <= usize::MAX);
                    assert(forest_level_count(post, j) == forest_level_count(pre, j) + level_count(c, j));
                }
            }
            self.elements[i].analyze_recursive(current_depth + 1, depth_distribution, element_counts);
            proof {
                lemma_beyond_depth(c, 0);
                assert(forest_depth(post) == (if i == 0 { tree_depth(c) } else if forest_depth(pre)
                    >= tree_depth(c) { forest_depth(pre) } else { tree_depth(c) }));
                assert forall|k: int|
                    0 <= k < depth_distribution@.len() implies #[trigger] depth_distribution@[k] == at(dd0, k)
                        + (if k == depth {
                        1
                    } else if k > depth {
                        forest_level_count(post, (k - depth - 1) as nat) as int
                    } else {
                        0
                    }) by {
                    if k > depth {
                        let j = (k - depth - 1) as nat;
                        lemma_beyond_depth(c, j);
                        lemma_forest_beyond_depth(pre, j);
                    }
                }
                assert forall|k: int|
                    0 <= k < element_counts@.len() implies #[trigger] element_counts@[k]
                        == vstd::math::max(
                        at(ec0, k),
                        if k == depth {
                            children.len() as int
                        } else if k > depth {
                            forest_level_max(post, (k - depth - 1) as nat) as int
                        } else {
                            0
                        },
                    ) by {
                    if k > depth {
                        let j = (k - depth - 1) as nat;
                        lemma_beyond_depth(c, j);
                        lemma_forest_beyond_depth(pre, j);
                    }
                }
            }
            i = i + 1;
        }
        proof {
            tree::lemma_take_full(children);
            assert forall|k: int|
                0 <= k < depth_distribution@.len() implies #[trigger] depth_distribution@[k]
                    == at(dd0, k) + (if k >= current_depth {
                    level_count(self@, (k - current_depth) as nat) as int
                } else {
                    0
                }) by {
                if k > depth {
                    assert(level_count(t, (k - depth) as nat) == forest_level_count(children, (k - depth - 1) as nat));
                }
            }
            assert forall|k: int|
                0 <= k < element_counts@.len() implies #[trigger] element_counts@[k]
                    == vstd::math::max(
                    at(ec0, k),
                    if k >= current_depth {
                        level_max(self@, (k - current_depth) as nat) as int
                    } else {
                        0
                    },
                ) by {
                if k > depth {
                    assert(level_max(t, (k - depth) as nat) == forest_level_max(children, (k - depth - 1) as nat));
                }
            }
        }
    }
}

/// Pushes the text `s` onto `v`.
fn push_text(v: &mut Vec<String>, s: &str)
    ensures
        string_texts(final(v)@) == string_texts(old(v)@).push(s@),
{
    v.push(text::owned(s));
    proof {
        assert(string_texts(final(v)@) =~= string_texts(old(v)@).push(s@));
    }
}

/// Names the shapes of a structure from its per-level node counts and element maxima.
fn identify_nesting_patterns(depth_distribution: &Vec<usize>, element_counts: &Vec<usize>) -> (r: Vec<String>)
    requires
        element_counts.len() < usize::MAX,
    ensures
        string_texts(r@) == nesting_labels(depth_distribution.len() as nat, element_counts@),
{
    let mut patterns: Vec<String> = Vec::new();
    let ghost counts = element_counts@;
    if depth_distribution.len() <= 1 {
        push_text(&mut patterns, "atomic");
        proof {
            assert(string_texts(patterns@) =~= nesting_labels(depth_distribution.len() as nat, counts));
        }
        return patterns;
    }
    let mut is_linear = true;
    let mut has_branching = false;
    let mut i: usize = 0;
    while i < element_counts.len()
        invariant
            i <= element_counts.len(),
            counts == element_counts@,
            is_linear == (forall|k: int| 0 <= k < i ==> counts[k] <= 1),
            has_branching == (exists|k: int| 0 <= k < i && counts[k] > 1),
        decreases element_counts.len() - i,
    {
        if element_counts[i] > 1 {
            is_linear = false;
            has_branching = true;
        }
        i = i + 1;
    }
    let ghost before = string_texts(patterns@);
    if is_linear {
        push_text(&mut patterns, "linear");
    }
    if has_branching {
        push_text(&mut patterns, "tree");
    }
    let mut balanced = false;
    if element_counts.len() >= 2 {
        let first_count = element_counts[0];
        if first_count > 0 {
            let mut similar = true;
            let mut j: usize = 1;
            while j < element_counts.len()
                invariant
                    1 <= j <= element_counts.len(),
                    counts == element_counts@,
                    first_count == counts[0],
                    first_count > 0,
                    similar == (forall|k: int|
                        1 <= k < j ==> 2 * #[trigger] counts[k] >= counts[0] && counts[k] <= 2 * counts[0]),
                decreases element_counts.len() - j,
            {
                let count = element_counts[j];
                let low = count >= first_count / 2 + first_count % 2;
                let high = count / 2 <= first_count && (count % 2 == 0 || count / 2 < first_count);
                proof {
                    assert(low == (2 * count >= first_count)) by (nonlinear_arith)
                        requires
                            low == (count >= first_count / 2 + first_count % 2),
                            first_count > 0;
                    assert(high == (count <= 2 * first_count)) by (nonlinear_arith)
                        requires
                            high == (count / 2 <= first_count && (count % 2 == 0 || count / 2 < first_count));
                }
                if !(low && high) {
                    similar = false;
                }
                j = j + 1;
            }
            if similar && first_count > 1 {
                balanced = true;
            }
        }
    }
    if balanced {
        push_text(&mut patterns, "balanced");
    }
    if patterns.len() == 0 {
        push_text(&mut patterns, "irregular");
    }
    proof {
        assert(string_texts(patterns@) =~= nesting_labels(depth_distribution.len() as nat, counts));
    }
    patterns
}

/// The one-line description from the per-level node counts and the shape labels.
fn generate_summary(depth_distribution: &Vec<usize>, nesting_patterns: &Vec<String>) -> (r: String)
    requires
        seq_sum(depth_distribution@) <= usize::MAX,
        depth_distribution.len() > 0,
    ensures
        r@ == summary_text(
            depth_distribution.len() as nat,
            seq_sum(depth_distribution@),
            if nesting_patterns.len() == 0 { "unknown"@ } else { nesting_patterns@[0]@ },
        ),
{
    let ghost dd = depth_distribution@;
    let mut total_nodes: usize = 0;
    let mut i: usize = 0;
    while i < depth_distribution.len()
        invariant
            i <= depth_distribution.len(),
            dd == depth_distribution@,
            seq_sum(dd) <= usize::MAX,
            total_nodes == seq_sum(dd.take(i as int)),
        decreases depth_distribution.len() - i,
    {
        proof {
            tree::lemma_take_step(dd, i as int);
            assert(dd.take(i + 1).drop_last() =~= dd.take(i as int));
            lemma_seq_sum_prefix(dd, i + 1);
        }
        total_nodes = total_nodes + depth_distribution[i];
        i = i + 1;
    }
    proof {
        tree::lemma_take_full(dd);
    }
    let levels = depth_distribution.len();
    let mut s = text::joined(text::owned("Pattern with "), text::usize_text(levels).as_str());
    s = text::joined(s, " level");
    if levels != 1 {
        s = text::joined(s, "s");
    } else {
        s = text::joined(s, "");
    }
    s = text::joined(s, ", ");
    s = text::joined(s, text::usize_text(total_nodes).as_str());
    s = text::joined(s, " node");
    if total_nodes != 1 {
        s = text::joined(s, "s");
    } else {
        s = text::joined(s, "");
    }
    s = text::joined(s, ", ");
    if nesting_patterns.len() == 0 {
        s = text::joined(s, "unknown");
    } else {
        s = text::joined(s, nesting_patterns[0].as_str());
    }
    s = text::joined(s, "-like structure");
    proof {
        assert(s@ =~= summary_text(
            levels as nat,
            seq_sum(dd),
            if nesting_patterns.len() == 0 { "unknown"@ } else { nesting_patterns@[0]@ },
        ));
    }
    s
}

/// The per-level node counts add up to the number of nodes; there is one level more
/// than the depth, and each level that has a node below it has a node with elements.
pub proof fn lemma_distribution_accounts_for_all<V>(t: Tree<V>)
    requires
        tree::tree_size(t) <= usize::MAX,
    ensures
        seq_sum(depth_distribution_of(t)) == tree::tree_size(t),
        depth_distribution_of(t).len() == tree_depth(t) + 1,
        forall|k: int| 0 <= k < element_counts_of(t).len() ==> #[trigger] element_counts_of(t)[k] >= 1,
{
    assert forall|k: int| 0 <= k < depth_distribution_of(t).len() implies #[trigger] depth_distribution_of(t)[k]
        == level_count(t, k as nat) by {
        lemma_level_count_le_size(t, k as nat);
    }
    lemma_seq_sum_levels(t, depth_distribution_of(t));
    lemma_level_total_is_size(t, tree_depth(t) + 1);
    assert forall|k: int| 0 <= k < element_counts_of(t).len() implies #[trigger] element_counts_of(t)[k] >= 1 by {
        lemma_level_max_positive(t, k as nat);
        lemma_level_max_le_size(t, k as nat);
    }
}

impl<V> Pattern<V> {
    /// Analyses the structure: nodes per level, the most elements of a node per level
    /// (levels with elements only), the shapes recognised, and a one-line summary.
    pub fn analyze_structure(&self) -> (r: StructureAnalysis)
        requires
            tree::tree_size(self@) <= usize::MAX,
        ensures
            r.depth_distribution@ == depth_distribution_of(self@),
            r.element_counts@ == element_counts_of(self@),
            string_texts(r.nesting_patterns@) == nesting_labels(
                tree_depth(self@) + 1,
                element_counts_of(self@),
            ),
            r.summary@ == summary_text(
                tree_depth(self@) + 1,
                tree::tree_size(self@),
                nesting_labels(tree_depth(self@) + 1, element_counts_of(self@))[0],
            ),
    {
        let ghost t = self@;
        proof {
            tree::lemma_depth_lt_size(t);
            assert forall|j: nat| #[trigger] level_count(t, j) + at(Seq::<usize>::empty(), j as int) <= usize::MAX by {
                lemma_level_count_le_size(t, j);
            }
        }
        let mut depth_distribution: Vec<usize> = Vec::new();
        let mut element_counts: Vec<usize> = Vec::new();
        self.analyze_recursive(0, &mut depth_distribution, &mut element_counts);
        proof {
            assert(depth_distribution@ =~= depth_distribution_of(t));
            assert forall|k: int| 0 <= k <= tree_depth(t) implies #[trigger] element_counts@[k] == level_max(t, k as nat) by {}
        }
        while element_counts.len() > 0 && element_counts[element_counts.len() - 1] == 0
            invariant
                element_counts@.len() >= tree_depth(t),
                element_counts@.len() <= tree_depth(t) + 1,
                forall|k: int| 0 <= k < element_counts@.len() ==> #[trigger] element_counts@[k] == level_max(t, k as nat),
            decreases element_counts@.len(),
        {
            proof {
                if element_counts@.len() == tree_depth(t) {
                    lemma_level_max_positive(t, (tree_depth(t) - 1) as nat);
                }
            }
            element_counts.pop();
        }
        proof {
            if element_counts@.len() > tree_depth(t) {
                lemma_beyond_depth(t, tree_depth(t));
            }
            assert(element_counts@ =~= element_counts_of(t));
            tree::lemma_depth_lt_size(t);
        }
        let nesting_patterns = identify_nesting_patterns(&depth_distribution, &element_counts);
        proof {
            lemma_seq_sum_levels(t, depth_distribution@);
            lemma_level_total_is_size(t, tree_depth(t) + 1);
        }
        let summary = generate_summary(&depth_distribution, &nesting_patterns);
        proof {
            let labels = nesting_labels(tree_depth(t) + 1, element_counts_of(t));
            assert(labels.len() >= 1);
            assert(string_texts(nesting_patterns@).len() == nesting_patterns@.len());
            assert(string_texts(nesting_patterns@)[0] == nesting_patterns@[0]@);
        }
        StructureAnalysis { depth_distribution, element_counts, nesting_patterns, summary }
    }
}

} // verus!
