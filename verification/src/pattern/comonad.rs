use vstd::prelude::*;

use crate::pattern::{lemma_pattern_view, subpatterns, forest_subpatterns, Pattern};
use crate::tree::{self, Tree};

verus! {

/// `b` has the shape of `p`, and each of its values is what `f` returned on the
/// corresponding sub-pattern of `p`.
pub open spec fn extended_by<V, W, F: Fn(&Pattern<V>) -> W>(f: F, p: Pattern<V>, b: Tree<W>) -> bool
    decreases p,
{
    &&& f.ensures((&p,), b.value)
    &&& p.elements.len() == b.children.len()
    &&& forall|i: int|
        0 <= i < p.elements.len() ==> extended_by(f, #[trigger] p.elements@[i], b.children[i])
}

/// The sub-patterns of an element are sub-patterns of its parent.
pub proof fn lemma_element_subpatterns<V>(p: Pattern<V>, i: int, q: Pattern<V>)
    requires
        0 <= i < p.elements.len(),
        subpatterns(p.elements@[i]).contains(q),
    ensures
        subpatterns(p).contains(q),
{
    crate::pattern::lemma_subpatterns_split(p, i);
    let a = seq![p] + forest_subpatterns(p.elements@.take(i));
    let b = subpatterns(p.elements@[i]);
    let c = forest_subpatterns(p.elements@.skip(i + 1));
    tree::lemma_contains_add(a, b, q);
    tree::lemma_contains_add(a + b, c, q);
}

/// A pattern is its own first sub-pattern.
pub proof fn lemma_self_subpattern<V>(p: Pattern<V>)
    ensures
        subpatterns(p).contains(p),
        subpatterns(p)[0] == p,
{
    assert(subpatterns(p)[0] == p);
}

impl<V> Pattern<V> {
    /// The value at the focus of this pattern.
    #[inline]
    pub fn extract(&self) -> (r: &V)
        ensures
            *r == self.value,
    {
        &self.value
    }

    /// Applies `f` to every sub-pattern (this pattern included), building a pattern of
    /// the same shape from the results.
    pub fn extend<W, F>(&self, f: &F) -> (r: Pattern<W>)
        where
            F: Fn(&Pattern<V>) -> W,
        requires
            forall|q: Pattern<V>| subpatterns(*self).contains(q) ==> #[trigger] f.requires((&q,)),
        ensures
            extended_by(*f, *self, r@),
        decreases self,
    {
        proof {
            lemma_self_subpattern(*self);
        }
        let value = f(self);
        let mut elements: Vec<Pattern<W>> = Vec::new();
        let mut i: usize = 0;
        while i < self.elements.len()
            invariant
                i <= self.elements.len(),
                elements.len() == i,
                forall|q: Pattern<V>| subpatterns(*self).contains(q) ==> #[trigger] f.requires((&q,)),
                forall|k: int| 0 <= k < i ==> extended_by(*f, #[trigger] self.elements@[k], elements@[k]@),
            decreases self.elements.len() - i,
        {
            proof {
                assert forall|q: Pattern<V>| subpatterns(self.elements@[i as int]).contains(q) implies #[trigger] f.requires((&q,)) by {
                    lemma_element_subpatterns(*self, i as int, q);
                }
            }
            let e = self.elements[i].extend(f);
            elements.push(e);
            i = i + 1;
        }
        let r = Pattern { value, elements };
        proof {
            lemma_pattern_view(r);
            assert forall|k: int| 0 <= k < self.elements.len() implies extended_by(*f, #[trigger] self.elements@[k], r@.children[k]) by {
                assert(r@.children[k] == r.elements@[k]@);
            }
        }
        r
    }
}

} // verus!
