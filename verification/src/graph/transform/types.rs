use vstd::prelude::*;

use crate::graph::graph_classifier::GraphClass;
use crate::pattern::Pattern;

verus! {

/// What `filter_graph` puts in place of an element it removes.
pub enum Substitution<V> {
    /// Nothing: the element is dropped.
    NoSubstitution,
    /// A copy of the given pattern, with the element's role.
    ReplaceWith(Pattern<V>),
    /// Nothing: the element is dropped.
    RemoveContainer,
}

/// One transformation per role, for `map_graph`.
pub struct CategoryMappers<N, R, W, A, O> {
    pub nodes: N,
    pub relationships: R,
    pub walks: W,
    pub annotations: A,
    pub other: O,
}

/// A pattern, as it is.
fn unchanged<V>(p: Pattern<V>) -> (r: Pattern<V>)
    ensures
        r == p,
{
    p
}

/// A pattern of any role, as it is.
fn unchanged_other<Extra, V>(_cls: GraphClass<Extra>, p: Pattern<V>) -> (r: Pattern<V>)
    ensures
        r == p,
{
    p
}

/// Mappers that leave every role as it is.
pub fn identity_mappers<Extra, V>() -> (r: CategoryMappers<
    impl Fn(Pattern<V>) -> Pattern<V>,
    impl Fn(Pattern<V>) -> Pattern<V>,
    impl Fn(Pattern<V>) -> Pattern<V>,
    impl Fn(Pattern<V>) -> Pattern<V>,
    impl Fn(GraphClass<Extra>, Pattern<V>) -> Pattern<V>,
>)
    ensures
        forall|p: Pattern<V>| #[trigger] r.nodes.requires((p,)),
        forall|p: Pattern<V>, q: Pattern<V>| #[trigger] r.nodes.ensures((p,), q) ==> q == p,
        forall|p: Pattern<V>| #[trigger] r.relationships.requires((p,)),
        forall|p: Pattern<V>, q: Pattern<V>| #[trigger] r.relationships.ensures((p,), q) ==> q == p,
        forall|p: Pattern<V>| #[trigger] r.walks.requires((p,)),
        forall|p: Pattern<V>, q: Pattern<V>| #[trigger] r.walks.ensures((p,), q) ==> q == p,
        forall|p: Pattern<V>| #[trigger] r.annotations.requires((p,)),
        forall|p: Pattern<V>, q: Pattern<V>| #[trigger] r.annotations.ensures((p,), q) ==> q == p,
        forall|c: GraphClass<Extra>, p: Pattern<V>| #[trigger] r.other.requires((c, p)),
        forall|c: GraphClass<Extra>, p: Pattern<V>, q: Pattern<V>| #[trigger] r.other.ensures((c, p), q) ==> q == p,
{
    CategoryMappers {
        nodes: unchanged,
        relationships: unchanged,
        walks: unchanged,
        annotations: unchanged,
        other: unchanged_other,
    }
}

} // verus!
