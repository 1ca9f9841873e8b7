use vstd::prelude::*;
use vstd::std_specs::cmp::PartialEqSpec;

use crate::pattern::{lemma_pattern_view, Pattern};
use crate::tree::{self, Tree};

verus! {

/// Two trees have the same shape and pairwise equal values (equality as `V` defines it).
pub open spec fn tree_matches<V: PartialEq>(a: Tree<V>, b: Tree<V>) -> bool
    decreases a,
{
    &&& a.value.eq_spec(&b.value)
    &&& a.children.len() == b.children.len()
    &&& forall|i: int|
        0 <= i < a.children.len() ==> tree_matches(#[trigger] a.children[i], b.children[i])
}

/// Some subtree of `t` (`t` included) matches `sub`.
pub open spec fn tree_contains<V: PartialEq>(t: Tree<V>, sub: Tree<V>) -> bool
    decreases t,
{
    ||| tree_matches(t, sub)
    ||| exists|i: int| 0 <= i < t.children.len() && tree_contains(#[trigger] t.children[i], sub)
}

impl<V: PartialEq> Pattern<V> {
    /// Whether the two patterns have the same structure and equal values.
    pub fn matches(&self, other: &Pattern<V>) -> (r: bool)
        ensures
            V::obeys_eq_spec() ==> r == tree_matches(self@, other@),
            r ==> tree::same_shape(self@, other@),
        decreases self,
    {
        proof {
            lemma_pattern_view(*self);
            lemma_pattern_view(*other);
        }
        if !(self.value == other.value) {
            return false;
        }
        if self.elements.len() != other.elements.len() {
            return false;
        }
        let mut i: usize = 0;
        while i < self.elements.len()
            invariant
                i <= self.elements.len(),
                self.elements.len() == other.elements.len(),
                self@.children.len() == self.elements.len(),
                other@.children.len() == other.elements.len(),
                forall|k: int| 0 <= k < self.elements.len() ==> #[trigger] self@.children[k] == self.elements@[k]@,
                forall|k: int| 0 <= k < other.elements.len() ==> #[trigger] other@.children[k] == other.elements@[k]@,
                V::obeys_eq_spec() ==> self.value.eq_spec(&other.value),
                forall|k: int|
                    0 <= k < i ==> (V::obeys_eq_spec() ==> tree_matches(#[trigger] self@.children[k], other@.children[k])),
                forall|k: int| 0 <= k < i ==> tree::same_shape(#[trigger] self@.children[k], other@.children[k]),
            decreases self.elements.len() - i,
        {
            if !self.elements[i].matches(&other.elements[i]) {
                proof {
                    if V::obeys_eq_spec() {
                        assert(!tree_matches(self@.children[i as int], other@.children[i as int]));
                        assert(!tree_matches(self@, other@));
                    }
                }
                return false;
            }
            i = i + 1;
        }
        true
    }

    /// Whether some sub-pattern (this pattern included) matches `subpattern`.
    pub fn contains(&self, subpattern: &Pattern<V>) -> (r: bool)
        ensures
            V::obeys_eq_spec() ==> r == tree_contains(self@, subpattern@),
        decreases self,
    {
        proof {
            lemma_pattern_view(*self);
        }
        if self.matches(subpattern) {
            return true;
        }
        let mut i: usize = 0;
        while i < self.elements.len()
            invariant
                i <= self.elements.len(),
                self@.children.len() == self.elements.len(),
                forall|k: int| 0 <= k < self.elements.len() ==> #[trigger] self@.children[k] == self.elements@[k]@,
                V::obeys_eq_spec() ==> !tree_matches(self@, subpattern@),
                forall|k: int|
                    0 <= k < i ==> (V::obeys_eq_spec() ==> !tree_contains(#[trigger] self@.children[k], subpattern@)),
            decreases self.elements.len() - i,
        {
            if self.elements[i].contains(subpattern) {
                proof {
                    if V::obeys_eq_spec() {
                        assert(tree_contains(self@.children[i as int], subpattern@));
                    }
                }
                return true;
            }
            i = i + 1;
        }
        false
    }
}

} // verus!
