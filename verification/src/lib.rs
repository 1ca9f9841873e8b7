pub mod graph;
pub mod pattern;
pub mod pattern_graph;
pub mod reconcile;
pub mod subject;
pub mod test_utils;
pub mod text;
pub mod tree;

pub use pattern::analysis::StructureAnalysis;
pub use pattern::unfold::unfold;
pub use pattern::validation::{ValidationError, ValidationRules};
pub use pattern::Pattern;
pub use subject::Symbol;

use vstd::prelude::*;

verus! {

/// Types whose values combine associatively.
///
/// `combine_view` states what combining two values gives, over their views;
/// `lemma_combine_associative` is the law every instance proves.
pub trait Combinable: Sized + View {
    /// The view of `a.combine(b)`, given the views of `a` and `b`.
    spec fn combine_view(a: Self::V, b: Self::V) -> Self::V;

    /// Combination is associative: `(a + b) + c == a + (b + c)`.
    proof fn lemma_combine_associative(a: Self::V, b: Self::V, c: Self::V)
        ensures
            Self::combine_view(Self::combine_view(a, b), c) == Self::combine_view(
                a,
                Self::combine_view(b, c),
            ),
    ;

    /// Combines two values.
    fn combine(self, other: Self) -> (r: Self)
        ensures
            r@ == Self::combine_view(self@, other@),
    ;
}

/// Strings combine by concatenation.
impl Combinable for String {
    open spec fn combine_view(a: Seq<char>, b: Seq<char>) -> Seq<char> {
        a + b
    }

    proof fn lemma_combine_associative(a: Seq<char>, b: Seq<char>, c: Seq<char>) {
        assert((a + b) + c =~= a + (b + c));
    }

    fn combine(self, other: Self) -> (r: Self) {
        let mut s = self;
        s.append(other.as_str());
        s
    }
}

/// Vectors combine by concatenation.
impl<T> Combinable for Vec<T> {
    open spec fn combine_view(a: Seq<T>, b: Seq<T>) -> Seq<T> {
        a + b
    }

    proof fn lemma_combine_associative(a: Seq<T>, b: Seq<T>, c: Seq<T>) {
        assert((a + b) + c =~= a + (b + c));
    }

    fn combine(self, other: Self) -> (r: Self) {
        let mut v = self;
        let mut o = other;
        v.append(&mut o);
        v
    }
}

/// The unit value combines trivially.
impl Combinable for () {
    open spec fn combine_view(a: (), b: ()) -> () {
        ()
    }

    proof fn lemma_combine_associative(a: (), b: (), c: ()) {
    }

    fn combine(self, other: Self) -> (r: Self) {
        ()
    }
}

} // verus!
