use vstd::prelude::*;

use crate::pattern::comonad::extended_by;
use crate::pattern::{lemma_pattern_view, lemma_subpattern_size, lemma_subpatterns_contains, subpatterns, Pattern};
use crate::tree::{self, Tree};

verus! {

/// `b` has the shape of `a`, and each value of `b` is `g` of the corresponding subtree of `a`.
pub open spec fn annotated_with<V, W>(a: Tree<V>, b: Tree<W>, g: spec_fn(Tree<V>) -> W) -> bool
    decreases a,
{
    &&& b.value == g(a)
    &&& a.children.len() == b.children.len()
    &&& forall|i: int|
        0 <= i < a.children.len() ==> annotated_with(#[trigger] a.children[i], b.children[i], g)
}

/// `b` has the shape of `a`, and each value of `b` is the path (child indices from the
/// root) of the corresponding node, the root's path being `path`.
pub open spec fn indexed_from<V>(a: Tree<V>, b: Tree<Vec<usize>>, path: Seq<usize>) -> bool
    decreases a,
{
    &&& b.value@ == path
    &&& a.children.len() == b.children.len()
    &&& forall|i: int|
        0 <= i < a.children.len() ==> indexed_from(
            #[trigger] a.children[i],
            b.children[i],
            path.push(i as usize),
        )
}

/// When `f` computes `g` on every sub-pattern, extending with `f` annotates with `g`.
pub proof fn lemma_extended_annotates<V, W, F: Fn(&Pattern<V>) -> W>(
    f: F,
    p: Pattern<V>,
    b: Tree<W>,
    g: spec_fn(Tree<V>) -> W,
)
    requires
        extended_by(f, p, b),
        forall|q: Pattern<V>, w: W| subpatterns(p).contains(q) && #[trigger] f.ensures((&q,), w) ==> w == g(q@),
    ensures
        annotated_with(p@, b, g),
    decreases p,
{
    lemma_pattern_view(p);
    lemma_subpatterns_contains(p, p);
    assert forall|i: int| 0 <= i < p@.children.len() implies annotated_with(#[trigger] p@.children[i], b.children[i], g) by {
        let c = p.elements@[i];
        assert forall|q: Pattern<V>, w: W| subpatterns(c).contains(q) && #[trigger] f.ensures((&q,), w) implies w == g(q@) by {
            crate::pattern::comonad::lemma_element_subpatterns(p, i, q);
        }
        lemma_extended_annotates(f, c, b.children[i], g);
    }
}

impl<V> Pattern<V> {
    /// The depth of every sub-pattern, in a pattern of the same shape.
    pub fn depth_at(&self) -> (r: Pattern<usize>)
        requires
            tree::tree_size(self@) <= usize::MAX,
        ensures
            annotated_with(self@, r@, |t: Tree<V>| tree::tree_depth(t) as usize),
    {
        let depth_of = |s: &Pattern<V>| -> (d: usize)
            requires
                tree::tree_size(s@) <= usize::MAX,
            ensures
                d == tree::tree_depth(s@),
            { s.depth() };
        proof {
            assert forall|q: Pattern<V>| subpatterns(*self).contains(q) implies #[trigger] depth_of.requires((&q,)) by {
                lemma_subpattern_size(*self, q);
            }
        }
        let r = self.extend(&depth_of);
        proof {
            lemma_extended_annotates(depth_of, *self, r@, |t: Tree<V>| tree::tree_depth(t) as usize);
        }
        r
    }

    /// The size of every sub-pattern, in a pattern of the same shape.
    pub fn size_at(&self) -> (r: Pattern<usize>)
        requires
            tree::tree_size(self@) <= usize::MAX,
        ensures
            annotated_with(self@, r@, |t: Tree<V>| tree::tree_size(t) as usize),
    {
        let size_of = |s: &Pattern<V>| -> (n: usize)
            requires
                tree::tree_size(s@) <= usize::MAX,
            ensures
                n == tree::tree_size(s@),
            { s.size() };
        proof {
            assert forall|q: Pattern<V>| subpatterns(*self).contains(q) implies #[trigger] size_of.requires((&q,)) by {
                lemma_subpattern_size(*self, q);
            }
        }
        let r = self.extend(&size_of);
        proof {
            lemma_extended_annotates(size_of, *self, r@, |t: Tree<V>| tree::tree_size(t) as usize);
        }
        r
    }

    /// The path (child indices from the root) of every sub-pattern, in a pattern of the
    /// same shape.
    pub fn indices_at(&self) -> (r: Pattern<Vec<usize>>)
        ensures
            indexed_from(self@, r@, Seq::empty()),
    {
        Self::indices_from(Vec::new(), self)
    }

    fn indices_from(path: Vec<usize>, pattern: &Pattern<V>) -> (r: Pattern<Vec<usize>>)
        ensures
            indexed_from(pattern@, r@, path@),
        decreases pattern,
    {
        proof {
            lemma_pattern_view(*pattern);
        }
        let mut elements: Vec<Pattern<Vec<usize>>> = Vec::new();
        let mut i: usize = 0;
        while i < pattern.elements.len()
            invariant
                i <= pattern.elements.len(),
                elements.len() == i,
                pattern@.children.len() == pattern.elements.len(),
                forall|k: int| 0 <= k < pattern.elements.len() ==> #[trigger] pattern@.children[k] == pattern.elements@[k]@,
                forall|k: int|
                    0 <= k < i ==> indexed_from(#[trigger] pattern@.children[k], elements@[k]@, path@.push(k as usize)),
            decreases pattern.elements.len() - i,
        {
            let mut new_path = copy_path(&path);
            new_path.push(i);
            let e = Self::indices_from(new_path, &pattern.elements[i]);
            elements.push(e);
            i = i + 1;
        }
        let r = Pattern { value: path, elements };
        proof {
            lemma_pattern_view(r);
        }
        r
    }
}

/// A copy of a path.
fn copy_path(path: &Vec<usize>) -> (r: Vec<usize>)
    ensures
        r@ == path@,
{
    let mut r: Vec<usize> = Vec::new();
    let mut i: usize = 0;
    while i < path.len()
        invariant
            i <= path.len(),
            r@ == path@.take(i as int),
        decreases path.len() - i,
    {
        proof {
            tree::lemma_take_step(path@, i as int);
        }
        r.push(path[i]);
        i = i + 1;
    }
    proof {
        tree::lemma_take_full(path@);
    }
    r
}

} // verus!
