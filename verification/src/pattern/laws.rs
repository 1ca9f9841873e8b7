use vstd::prelude::*;
use vstd::std_specs::cmp::PartialEqSpec;

use crate::pattern::analysis::{element_counts_of, nesting_labels, string_texts, StructureAnalysis};
use crate::pattern::comonad::extended_by;
use crate::pattern::validation::{
    depth_message, elements_message, error_text, forest_violation, node_violation, texts, tree_violation, ValidationError,
    ValidationRules,
};
use crate::text::decimal;
use crate::pattern::fold_map::mapped_by;
use crate::pattern::matching::{tree_contains, tree_matches};
use crate::pattern::traversable::{option_traversed, result_traversed};
use crate::pattern::{first_found, lemma_pattern_view, rejects_all, selected, Pattern};
use crate::tree::{forest_depth, same_shape, tree_depth, tree_subtrees, tree_values, Tree};

verus! {

// ---------------------------------------------------------------------------
// Equality of values
// ---------------------------------------------------------------------------

/// `V`'s equality holds of every value and itself.
pub open spec fn eq_reflexive<V: PartialEq>() -> bool {
    forall|x: V| #[trigger] x.eq_spec(&x)
}

/// `V`'s equality holds both ways or neither.
pub open spec fn eq_symmetric<V: PartialEq>() -> bool {
    forall|x: V, y: V| #[trigger] x.eq_spec(&y) ==> y.eq_spec(&x)
}

/// `V`'s equality carries over through a middle value.
pub open spec fn eq_transitive<V: PartialEq>() -> bool {
    forall|x: V, y: V, z: V| #![trigger x.eq_spec(&y), y.eq_spec(&z)] x.eq_spec(&y) && y.eq_spec(&z) ==> x.eq_spec(&z)
}

// ---------------------------------------------------------------------------
// Matching and containment
// ---------------------------------------------------------------------------

/// Matching is reflexive: every pattern matches itself, where `V`'s equality is.
pub proof fn lemma_matches_reflexive<V: PartialEq>(t: Tree<V>)
    requires
        eq_reflexive::<V>(),
    ensures
        tree_matches(t, t),
    decreases t,
{
    assert forall|i: int| 0 <= i < t.children.len() implies tree_matches(#[trigger] t.children[i], t.children[i]) by {
        lemma_matches_reflexive(t.children[i]);
    }
}

/// Matching is symmetric, where `V`'s equality is.
pub proof fn lemma_matches_symmetric<V: PartialEq>(a: Tree<V>, b: Tree<V>)
    requires
        eq_symmetric::<V>(),
    ensures
        tree_matches(a, b) == tree_matches(b, a),
    decreases a,
{
    if a.children.len() == b.children.len() {
        assert forall|i: int| 0 <= i < a.children.len() implies tree_matches(#[trigger] a.children[i], b.children[i])
            == tree_matches(b.children[i], a.children[i]) by {
            lemma_matches_symmetric(a.children[i], b.children[i]);
        }
        assert(a.value.eq_spec(&b.value) == b.value.eq_spec(&a.value));
        if tree_matches(b, a) {
            assert forall|i: int| 0 <= i < a.children.len() implies tree_matches(#[trigger] a.children[i], b.children[i]) by {
                assert(tree_matches(b.children[i], a.children[i]));
            }
        }
        if tree_matches(a, b) {
            assert forall|i: int| 0 <= i < b.children.len() implies tree_matches(#[trigger] b.children[i], a.children[i]) by {
                assert(tree_matches(a.children[i], b.children[i]));
            }
        }
    }
}

/// Matching carries over through a middle pattern, where `V`'s equality does.
pub proof fn lemma_matches_transitive<V: PartialEq>(a: Tree<V>, b: Tree<V>, c: Tree<V>)
    requires
        eq_transitive::<V>(),
        tree_matches(a, b),
        tree_matches(b, c),
    ensures
        tree_matches(a, c),
    decreases a,
{
    assert forall|i: int| 0 <= i < a.children.len() implies tree_matches(#[trigger] a.children[i], c.children[i]) by {
        assert(tree_matches(a.children[i], b.children[i]));
        assert(tree_matches(b.children[i], c.children[i]));
        lemma_matches_transitive(a.children[i], b.children[i], c.children[i]);
    }
}

/// Matching is stronger than containment: a pattern contains whatever it matches.
pub proof fn lemma_matches_implies_contains<V: PartialEq>(a: Tree<V>, b: Tree<V>)
    requires
        tree_matches(a, b),
    ensures
        tree_contains(a, b),
{
}

/// Containment is reflexive: every pattern contains itself, where `V`'s equality is
/// reflexive.
pub proof fn lemma_contains_reflexive<V: PartialEq>(t: Tree<V>)
    requires
        eq_reflexive::<V>(),
    ensures
        tree_contains(t, t),
{
    lemma_matches_reflexive(t);
}

/// What a pattern contains, every pattern that matches it contains too.
proof fn lemma_matching_contains<V: PartialEq>(a: Tree<V>, b: Tree<V>, c: Tree<V>)
    requires
        eq_transitive::<V>(),
        tree_matches(a, b),
        tree_contains(b, c),
    ensures
        tree_contains(a, c),
    decreases b,
{
    if tree_matches(b, c) {
        lemma_matches_transitive(a, b, c);
    } else {
        let i = choose|i: int| 0 <= i < b.children.len() && tree_contains(#[trigger] b.children[i], c);
        assert(tree_matches(a.children[i], b.children[i]));
        lemma_matching_contains(a.children[i], b.children[i], c);
        assert(tree_contains(a.children[i], c));
    }
}

/// Containment is transitive, where `V`'s equality is.
pub proof fn lemma_contains_transitive<V: PartialEq>(a: Tree<V>, b: Tree<V>, c: Tree<V>)
    requires
        eq_transitive::<V>(),
        tree_contains(a, b),
        tree_contains(b, c),
    ensures
        tree_contains(a, c),
    decreases a,
{
    if tree_matches(a, b) {
        lemma_matching_contains(a, b, c);
    } else {
        let i = choose|i: int| 0 <= i < a.children.len() && tree_contains(#[trigger] a.children[i], b);
        lemma_contains_transitive(a.children[i], b, c);
        assert(tree_contains(a.children[i], c));
    }
}

// ---------------------------------------------------------------------------
// Mapping
// ---------------------------------------------------------------------------

/// Mapping with a function that gives back its argument gives back the pattern.
pub proof fn lemma_map_identity<V, F: Fn(&V) -> V>(f: F, a: Tree<V>, b: Tree<V>)
    requires
        forall|v: &V, w: V| #[trigger] f.ensures((v,), w) ==> w == *v,
        mapped_by(f, a, b),
    ensures
        b == a,
    decreases a,
{
    assert forall|i: int| 0 <= i < a.children.len() implies #[trigger] b.children[i] == a.children[i] by {
        lemma_map_identity(f, a.children[i], b.children[i]);
    }
    assert(b.children =~= a.children);
}

/// Mapping with `f` and then `g` gives what mapping once with `h` gives, where `h`
/// returns, and only returns, what `g` returns on what `f` returns.
pub proof fn lemma_map_composition<U, V, W, F: Fn(&U) -> V, G: Fn(&V) -> W, H: Fn(&U) -> W>(
    f: F,
    g: G,
    h: H,
    a: Tree<U>,
    b: Tree<V>,
    c: Tree<W>,
    d: Tree<W>,
)
    requires
        forall|x: &U, y: V, z: W| #[trigger] f.ensures((x,), y) && #[trigger] g.ensures((&y,), z) ==> h.ensures((x,), z),
        forall|x: &U, z1: W, z2: W| #[trigger] h.ensures((x,), z1) && #[trigger] h.ensures((x,), z2) ==> z1 == z2,
        mapped_by(f, a, b),
        mapped_by(g, b, c),
        mapped_by(h, a, d),
    ensures
        c == d,
    decreases a,
{
    assert(h.ensures((&a.value,), c.value));
    assert forall|i: int| 0 <= i < a.children.len() implies #[trigger] c.children[i] == d.children[i] by {
        assert(mapped_by(f, a.children[i], b.children[i]));
        assert(mapped_by(g, b.children[i], c.children[i]));
        assert(mapped_by(h, a.children[i], d.children[i]));
        lemma_map_composition(f, g, h, a.children[i], b.children[i], c.children[i], d.children[i]);
    }
    assert(c.children =~= d.children);
}

// ---------------------------------------------------------------------------
// Comonad
// ---------------------------------------------------------------------------

/// Left identity: the focus of what `extend` builds is what `f` gave on the whole
/// pattern.
pub proof fn lemma_extract_of_extend<V, W, F: Fn(&Pattern<V>) -> W>(f: F, p: Pattern<V>, b: Tree<W>)
    requires
        extended_by(f, p, b),
    ensures
        f.ensures((&p,), b.value),
{
}

/// Right identity: extending with a function that gives the focus gives back the
/// pattern.
pub proof fn lemma_extend_extract<V, F: Fn(&Pattern<V>) -> V>(f: F, p: Pattern<V>, b: Tree<V>)
    requires
        forall|q: &Pattern<V>, w: V| #[trigger] f.ensures((q,), w) ==> w == q.value,
        extended_by(f, p, b),
    ensures
        b == p@,
    decreases p,
{
    lemma_pattern_view(p);
    assert forall|i: int| 0 <= i < p.elements.len() implies #[trigger] b.children[i] == p@.children[i] by {
        lemma_extend_extract(f, p.elements@[i], b.children[i]);
    }
    assert(b.children =~= p@.children);
}

/// Associativity: extending with `f` what extending with `g` built gives what extending
/// once with `h` gives, where `h` returns, and only returns, what `f` returns on what
/// extending with `g` builds.
pub proof fn lemma_extend_associative<U, V, W, G: Fn(&Pattern<U>) -> V, F: Fn(&Pattern<V>) -> W, H: Fn(&Pattern<U>) -> W>(
    g: G,
    f: F,
    h: H,
    p: Pattern<U>,
    q: Pattern<V>,
    c: Tree<W>,
    d: Tree<W>,
)
    requires
        forall|x: Pattern<U>, y: Pattern<V>, z: W|
            #[trigger] extended_by(g, x, y@) && #[trigger] f.ensures((&y,), z) ==> h.ensures((&x,), z),
        forall|x: &Pattern<U>, z1: W, z2: W| #[trigger] h.ensures((x,), z1) && #[trigger] h.ensures((x,), z2) ==> z1 == z2,
        extended_by(g, p, q@),
        extended_by(f, q, c),
        extended_by(h, p, d),
    ensures
        c == d,
    decreases p,
{
    lemma_pattern_view(q);
    assert(h.ensures((&p,), c.value));
    assert forall|i: int| 0 <= i < p.elements.len() implies #[trigger] c.children[i] == d.children[i] by {
        assert(q@.children[i] == q.elements@[i]@);
        assert(extended_by(g, p.elements@[i], q.elements@[i]@));
        assert(extended_by(f, q.elements@[i], c.children[i]));
        assert(extended_by(h, p.elements@[i], d.children[i]));
        lemma_extend_associative(g, f, h, p.elements@[i], q.elements@[i], c.children[i], d.children[i]);
    }
    assert(c.children =~= d.children);
}

// ---------------------------------------------------------------------------
// Traversal
// ---------------------------------------------------------------------------

/// A successful traversal keeps the shape: the same number of elements at every
/// position, hence the same size and depth.
pub proof fn lemma_option_traversed_shape<V, W, F: Fn(&V) -> Option<W>>(f: F, a: Tree<V>, b: Tree<W>)
    requires
        option_traversed(f, a, b),
    ensures
        same_shape(a, b),
    decreases a,
{
    assert forall|i: int| 0 <= i < a.children.len() implies same_shape(#[trigger] a.children[i], b.children[i]) by {
        lemma_option_traversed_shape(f, a.children[i], b.children[i]);
    }
}

/// A successful traversal keeps the shape, with `Result` as with `Option`.
pub proof fn lemma_result_traversed_shape<V, W, E, F: Fn(&V) -> Result<W, E>>(f: F, a: Tree<V>, b: Tree<W>)
    requires
        result_traversed(f, a, b),
    ensures
        same_shape(a, b),
    decreases a,
{
    assert forall|i: int| 0 <= i < a.children.len() implies same_shape(#[trigger] a.children[i], b.children[i]) by {
        lemma_result_traversed_shape(f, a.children[i], b.children[i]);
    }
}

/// Identity: traversing with a function that wraps its argument in `Some` gives back
/// the pattern.
pub proof fn lemma_traverse_option_identity<V, F: Fn(&V) -> Option<V>>(f: F, a: Tree<V>, b: Tree<V>)
    requires
        forall|v: &V, o: Option<V>| #[trigger] f.ensures((v,), o) ==> o == Some(*v),
        option_traversed(f, a, b),
    ensures
        b == a,
    decreases a,
{
    assert(f.ensures((&a.value,), Some(b.value)));
    assert forall|i: int| 0 <= i < a.children.len() implies #[trigger] b.children[i] == a.children[i] by {
        lemma_traverse_option_identity(f, a.children[i], b.children[i]);
    }
    assert(b.children =~= a.children);
}

/// Identity: traversing with a function that wraps its argument in `Ok` gives back
/// the pattern.
pub proof fn lemma_traverse_result_identity<V, E, F: Fn(&V) -> Result<V, E>>(f: F, a: Tree<V>, b: Tree<V>)
    requires
        forall|v: &V, o: Result<V, E>| #[trigger] f.ensures((v,), o) ==> o == Ok::<V, E>(*v),
        result_traversed(f, a, b),
    ensures
        b == a,
    decreases a,
{
    assert(f.ensures((&a.value,), Ok::<V, E>(b.value)));
    assert forall|i: int| 0 <= i < a.children.len() implies #[trigger] b.children[i] == a.children[i] by {
        lemma_traverse_result_identity(f, a.children[i], b.children[i]);
    }
    assert(b.children =~= a.children);
}


// ---------------------------------------------------------------------------
// Queries by predicate
// ---------------------------------------------------------------------------

/// `pred` answers on every pattern as `keep` says.
pub open spec fn answers_by<V, F: Fn(&Pattern<V>) -> bool>(pred: F, keep: spec_fn(Pattern<V>) -> bool) -> bool {
    forall|p: &Pattern<V>, b: bool| #[trigger] pred.ensures((p,), b) ==> b == keep(*p)
}

/// The patterns behind a sequence of references.
pub open spec fn derefs<V>(r: Seq<&Pattern<V>>) -> Seq<Pattern<V>> {
    r.map_values(|x: &Pattern<V>| *x)
}

/// What a predicate that answers as `keep` selects from `s` is `s` filtered by `keep`.
proof fn lemma_selected_is_filter<V, F: Fn(&Pattern<V>) -> bool>(
    pred: F,
    keep: spec_fn(Pattern<V>) -> bool,
    s: Seq<Pattern<V>>,
    r: Seq<&Pattern<V>>,
)
    requires
        answers_by(pred, keep),
        selected(pred, s, r),
    ensures
        derefs(r) == s.filter(keep),
    decreases s.len(),
{
    reveal(Seq::filter);
    if s.len() > 0 {
        if pred.ensures((&s.last(),), true) && r.len() > 0 && *r.last() == s.last() && selected(pred, s.drop_last(), r.drop_last()) {
            lemma_selected_is_filter(pred, keep, s.drop_last(), r.drop_last());
            assert(keep(s.last()));
            assert(derefs(r) =~= derefs(r.drop_last()).push(s.last()));
        } else {
            assert(pred.ensures((&s.last(),), false));
            assert(!keep(s.last()));
            lemma_selected_is_filter(pred, keep, s.drop_last(), r);
        }
    }
}

/// Nothing that every member of `s` fails is kept by the filter.
proof fn lemma_filter_none<A>(s: Seq<A>, keep: spec_fn(A) -> bool)
    requires
        forall|j: int| 0 <= j < s.len() ==> !keep(#[trigger] s[j]),
    ensures
        s.filter(keep).len() == 0,
{
    if s.filter(keep).len() > 0 {
        let x = s.filter(keep)[0];
        s.lemma_filter_pred(keep, 0);
        s.lemma_filter_contains_rev(keep, x);
        let j = choose|j: int| 0 <= j < s.len() && s[j] == x;
        assert(!keep(s[j]));
    }
}

/// `find_first` gives the first pattern that `filter` selects: for a predicate that
/// answers as `keep` does, the member of `s` found first is the first of those
/// selected, and none is found exactly when none is selected.
pub proof fn lemma_find_first_is_first_of_filter<V, F: Fn(&Pattern<V>) -> bool>(
    pred: F,
    keep: spec_fn(Pattern<V>) -> bool,
    s: Seq<Pattern<V>>,
    found: Option<&Pattern<V>>,
    all: Seq<&Pattern<V>>,
)
    requires
        answers_by(pred, keep),
        first_found(pred, s, found),
        selected(pred, s, all),
    ensures
        found is None <==> all.len() == 0,
        found is Some ==> *found->Some_0 == *all[0],
{
    lemma_selected_is_filter(pred, keep, s, all);
    assert(derefs(all).len() == all.len());
    match found {
        Some(q) => {
            let k = choose|k: int|
                #![trigger s[k]]
                0 <= k < s.len() && s[k] == *q && pred.ensures((&s[k],), true) && rejects_all(pred, s.take(k));
            assert(keep(s[k]));
            assert forall|j: int| 0 <= j < s.take(k).len() implies !keep(#[trigger] s.take(k)[j]) by {
                assert(pred.ensures((&s.take(k)[j],), false));
            }
            lemma_filter_none(s.take(k), keep);
            assert(s =~= s.take(k) + (seq![s[k]] + s.skip(k + 1)));
            Seq::<Pattern<V>>::filter_distributes_over_add(s.take(k), seq![s[k]] + s.skip(k + 1), keep);
            s.skip(k + 1).lemma_filter_prepend(s[k], keep);
            assert(s.filter(keep)[0] == s[k]);
            assert(derefs(all)[0] == *all[0]);
        },
        None => {
            assert forall|j: int| 0 <= j < s.len() implies !keep(#[trigger] s[j]) by {
                assert(pred.ensures((&s[j],), false));
            }
            lemma_filter_none(s, keep);
        },
    }
}

/// Every value passes `pred` exactly when none fails it: for predicates on values that
/// answer as `keep` and as its negation do, `all_values` with the first gives the
/// opposite of `any_value` with the second.
pub proof fn lemma_all_values_is_not_any_failing<V, F: Fn(&V) -> bool, G: Fn(&V) -> bool>(
    t: Tree<V>,
    pred: F,
    neg: G,
    keep: spec_fn(V) -> bool,
    all: bool,
    any: bool,
)
    requires
        forall|v: &V, b: bool| #[trigger] pred.ensures((v,), b) ==> b == keep(*v),
        forall|v: &V, b: bool| #[trigger] neg.ensures((v,), b) ==> b == !keep(*v),
        all ==> forall|v: &V| tree_values(t).contains(*v) ==> #[trigger] pred.ensures((v,), true),
        !all ==> exists|v: &V| tree_values(t).contains(*v) && #[trigger] pred.ensures((v,), false),
        any ==> exists|v: &V| tree_values(t).contains(*v) && #[trigger] neg.ensures((v,), true),
        !any ==> forall|v: &V| tree_values(t).contains(*v) ==> #[trigger] neg.ensures((v,), false),
    ensures
        all == !any,
{
    if all && any {
        let v = choose|v: &V| tree_values(t).contains(*v) && #[trigger] neg.ensures((v,), true);
        assert(pred.ensures((v,), true));
    }
    if !all && !any {
        let v = choose|v: &V| tree_values(t).contains(*v) && #[trigger] pred.ensures((v,), false);
        assert(neg.ensures((v,), false));
    }
}


// ---------------------------------------------------------------------------
// Structure analysis
// ---------------------------------------------------------------------------

/// The shape labels that `analyze_structure` gives: a pattern of one level is "atomic";
/// a deeper one is first "linear" exactly when every level has at most one element
/// and "tree" exactly when some level has more than one, then "balanced" exactly when
/// there are two levels or more, the first has more than one element and every later
/// level is within a factor of two of the first; nothing else ("irregular" never).
pub proof fn lemma_nesting_labels_follow_element_counts<V>(t: Tree<V>, r: StructureAnalysis)
    requires
        r.element_counts@ == element_counts_of(t),
        string_texts(r.nesting_patterns@) == nesting_labels(tree_depth(t) + 1, element_counts_of(t)),
    ensures
        tree_depth(t) == 0 ==> string_texts(r.nesting_patterns@) == seq!["atomic"@],
        tree_depth(t) >= 1 ==> (string_texts(r.nesting_patterns@).contains("linear"@) <==> forall|k: int|
            0 <= k < r.element_counts@.len() ==> r.element_counts@[k] <= 1),
        tree_depth(t) >= 1 ==> (string_texts(r.nesting_patterns@).contains("tree"@) <==> exists|k: int|
            0 <= k < r.element_counts@.len() && r.element_counts@[k] > 1),
        tree_depth(t) >= 1 ==> string_texts(r.nesting_patterns@).len() >= 1 && (string_texts(r.nesting_patterns@)[0]
            == "linear"@ || string_texts(r.nesting_patterns@)[0] == "tree"@),
        tree_depth(t) >= 1 ==> (string_texts(r.nesting_patterns@).contains("balanced"@) <==> {
            let c = r.element_counts@;
            c.len() >= 2 && c[0] > 1 && forall|k: int|
                1 <= k < c.len() ==> c[0] <= 2 * #[trigger] c[k] && c[k] <= 2 * c[0]
        }),
        tree_depth(t) >= 1 ==> string_texts(r.nesting_patterns@).len() == (if string_texts(
            r.nesting_patterns@,
        ).contains("balanced"@) {
            2int
        } else {
            1int
        }),
        tree_depth(t) >= 1 ==> !string_texts(r.nesting_patterns@).contains("irregular"@),
{
    reveal_strlit("atomic");
    reveal_strlit("linear");
    reveal_strlit("tree");
    reveal_strlit("balanced");
    reveal_strlit("irregular");
    let counts = r.element_counts@;
    let labels = string_texts(r.nesting_patterns@);
    if tree_depth(t) >= 1 {
        let linear = forall|k: int| 0 <= k < counts.len() ==> counts[k] <= 1;
        let branching = exists|k: int| 0 <= k < counts.len() && counts[k] > 1;
        let balanced = counts.len() >= 2 && counts[0] > 1 && forall|k: int|
            1 <= k < counts.len() ==> 2 * #[trigger] counts[k] >= counts[0] && counts[k] <= 2 * counts[0];
        let a: Seq<Seq<char>> = if linear { seq!["linear"@] } else { Seq::empty() };
        let b: Seq<Seq<char>> = if branching { seq!["tree"@] } else { Seq::empty() };
        let c: Seq<Seq<char>> = if balanced { seq!["balanced"@] } else { Seq::empty() };
        assert(labels == (if (a + b + c).len() == 0 { seq!["irregular"@] } else { a + b + c }));
        assert(linear <==> !branching);
        let first: Seq<char> = if linear { "linear"@ } else { "tree"@ };
        assert(a + b =~= seq![first]);
        assert(labels == seq![first] + c);
        assert("linear"@ != "tree"@ && "linear"@ != "balanced"@ && "linear"@ != "irregular"@) by {
            assert("linear"@.len() != "tree"@.len());
            assert("linear"@.len() != "balanced"@.len());
            assert("linear"@.len() != "irregular"@.len());
        }
        assert("tree"@ != "balanced"@ && "tree"@ != "irregular"@) by {
            assert("tree"@.len() != "balanced"@.len());
            assert("tree"@.len() != "irregular"@.len());
        }
        assert("balanced"@ != "irregular"@) by {
            assert("balanced"@.len() != "irregular"@.len());
        }
        assert forall|x: Seq<char>| labels.contains(x) <==> (x == first || (balanced && x == "balanced"@)) by {
            crate::tree::lemma_contains_add(seq![first], c, x);
            assert(seq![first].contains(x) <==> x == first) by {
                if x == first {
                    assert(seq![first][0] == x);
                }
            }
            if balanced {
                assert(c.contains(x) <==> x == "balanced"@) by {
                    if x == "balanced"@ {
                        assert(c[0] == x);
                    }
                }
            }
        }
        assert(labels[0] == first);
        assert(labels.contains("linear"@) <==> linear);
        assert(labels.contains("tree"@) <==> branching);
        assert(labels.contains("balanced"@) <==> balanced);
        assert(!labels.contains("irregular"@));
    }
}

// ---------------------------------------------------------------------------
// Validation
// ---------------------------------------------------------------------------

/// Every node of `t`, at every depth, has at most `m` elements.
pub open spec fn elements_within<V>(t: Tree<V>, m: nat) -> bool {
    forall|x: Tree<V>| #[trigger] tree_subtrees(t).contains(x) ==> x.children.len() <= m
}

/// `t`, whose root sits at `depth`, has no node deeper than `max_depth` and no node with
/// more elements than `max_elements`.
pub open spec fn within_limits<V>(t: Tree<V>, max_depth: Option<usize>, max_elements: Option<usize>, depth: nat) -> bool {
    &&& (max_elements is Some ==> elements_within(t, max_elements->0 as nat))
    &&& (max_depth is Some ==> depth + tree_depth(t) <= max_depth->0)
}

/// A node's elements are within `m` at every depth exactly when it has at most `m`
/// elements and each of them is within `m`.
proof fn lemma_elements_within_unfold<V>(t: Tree<V>, m: nat)
    ensures
        elements_within(t, m) <==> t.children.len() <= m && forall|j: int|
            0 <= j < t.children.len() ==> elements_within(#[trigger] t.children[j], m),
{
    crate::tree::lemma_tree_subtrees_contains(t, t);
    if elements_within(t, m) {
        assert forall|j: int| 0 <= j < t.children.len() implies elements_within(#[trigger] t.children[j], m) by {
            assert forall|x: Tree<V>| #[trigger] tree_subtrees(t.children[j]).contains(x) implies x.children.len() <= m by {
                crate::tree::lemma_tree_subtrees_contains(t, x);
            }
        }
    }
    if t.children.len() <= m && forall|j: int| 0 <= j < t.children.len() ==> elements_within(#[trigger] t.children[j], m) {
        assert forall|x: Tree<V>| #[trigger] tree_subtrees(t).contains(x) implies x.children.len() <= m by {
            crate::tree::lemma_tree_subtrees_contains(t, x);
            if x != t {
                let j = choose|j: int| 0 <= j < t.children.len() && #[trigger] tree_subtrees(t.children[j]).contains(x);
                assert(elements_within(t.children[j], m));
            }
        }
    }
}

/// The depth of a forest is at most `b` exactly when each of its trees' depth is.
proof fn lemma_forest_depth_bound<V>(s: Seq<Tree<V>>, b: int)
    ensures
        forest_depth(s) <= b <==> (b >= 0 && forall|j: int| 0 <= j < s.len() ==> tree_depth(#[trigger] s[j]) <= b),
    decreases s.len(),
{
    if s.len() > 0 {
        lemma_forest_depth_bound(s.drop_last(), b);
        if forall|j: int| 0 <= j < s.len() ==> tree_depth(#[trigger] s[j]) <= b {
            assert forall|j: int| 0 <= j < s.drop_last().len() implies tree_depth(#[trigger] s.drop_last()[j]) <= b by {
                assert(s.drop_last()[j] == s[j]);
            }
            assert(tree_depth(s[s.len() - 1]) <= b);
        }
        if forest_depth(s) <= b {
            assert forall|j: int| 0 <= j < s.len() implies tree_depth(#[trigger] s[j]) <= b by {
                if j < s.len() - 1 {
                    assert(s.drop_last()[j] == s[j]);
                }
            }
        }
    }
}

/// No rule is broken within `t` exactly when `t` is within the limits.
proof fn lemma_tree_violation_none<V>(
    t: Tree<V>,
    max_depth: Option<usize>,
    max_elements: Option<usize>,
    depth: nat,
    loc: Seq<Seq<char>>,
)
    ensures
        tree_violation(t, max_depth, max_elements, depth, loc) is None <==> within_limits(t, max_depth, max_elements, depth),
    decreases t,
{
    lemma_forest_violation_none(t.children, max_depth, max_elements, depth + 1, loc);
    if max_elements is Some {
        lemma_elements_within_unfold(t, max_elements->0 as nat);
    }
    if max_depth is Some {
        lemma_forest_depth_bound(t.children, max_depth->0 - depth - 1);
    }
}

/// No rule is broken within the trees `s` exactly when each of them is within the
/// limits.
proof fn lemma_forest_violation_none<V>(
    s: Seq<Tree<V>>,
    max_depth: Option<usize>,
    max_elements: Option<usize>,
    depth: nat,
    loc: Seq<Seq<char>>,
)
    ensures
        forest_violation(s, max_depth, max_elements, depth, loc) is None <==> forall|j: int|
            0 <= j < s.len() ==> within_limits(#[trigger] s[j], max_depth, max_elements, depth),
    decreases s,
{
    if s.len() > 0 {
        lemma_forest_violation_none(s.drop_last(), max_depth, max_elements, depth, loc);
        lemma_tree_violation_none(s.last(), max_depth, max_elements, depth, loc + seq!["elements"@, crate::text::decimal((s.len() - 1) as nat)]);
        assert forall|j: int| 0 <= j < s.drop_last().len() implies #[trigger] s.drop_last()[j] == s[j] by {}
        if forall|j: int| 0 <= j < s.len() ==> within_limits(#[trigger] s[j], max_depth, max_elements, depth) {
            assert(within_limits(s[s.len() - 1], max_depth, max_elements, depth));
            assert forall|j: int| 0 <= j < s.drop_last().len() implies within_limits(#[trigger] s.drop_last()[j], max_depth, max_elements, depth) by {
                assert(s.drop_last()[j] == s[j]);
            }
        }
        if forest_violation(s, max_depth, max_elements, depth, loc) is None {
            assert forall|j: int| 0 <= j < s.len() implies within_limits(#[trigger] s[j], max_depth, max_elements, depth) by {
                if j < s.len() - 1 {
                    assert(s.drop_last()[j] == s[j]);
                }
            }
        }
    }
}

/// `validate` accepts a pattern exactly when no node, at any depth, sits deeper than
/// `max_depth` (the root at depth 0) or has more elements than `max_elements`.
pub proof fn lemma_validate_accepts_exactly_within_limits<V>(t: Tree<V>, rules: ValidationRules, r: Result<(), ValidationError>)
    requires
        match r {
            Ok(()) => tree_violation(t, rules.max_depth, rules.max_elements, 0, seq![]) is None,
            Err(e) => tree_violation(t, rules.max_depth, rules.max_elements, 0, seq![]) == Some(error_text(e)),
        },
    ensures
        r is Ok <==> ((rules.max_elements is Some ==> forall|x: Tree<V>|
            #[trigger] tree_subtrees(t).contains(x) ==> x.children.len() <= rules.max_elements->0)
            && (rules.max_depth is Some ==> tree_depth(t) <= rules.max_depth->0)),
{
    lemma_tree_violation_none(t, rules.max_depth, rules.max_elements, 0, seq![]);
}

/// The node of `t` reached by taking, at each step, the element at the next index of
/// `idx` (`None` where an index is out of range).
pub open spec fn node_at<V>(t: Tree<V>, idx: Seq<int>) -> Option<Tree<V>>
    decreases idx.len(),
{
    if idx.len() == 0 {
        Some(t)
    } else if 0 <= idx[0] < t.children.len() {
        node_at(t.children[idx[0]], idx.skip(1))
    } else {
        None
    }
}

/// The location text of a path of element indices: per step `"elements"` and the
/// index in decimal.
pub open spec fn path_text(idx: Seq<int>) -> Seq<Seq<char>>
    decreases idx.len(),
{
    if idx.len() == 0 {
        Seq::empty()
    } else {
        seq!["elements"@, decimal(idx[0] as nat)] + path_text(idx.skip(1))
    }
}

/// A node at depth `d` breaks a rule of `rules` as `message` and `rule` report it.
pub open spec fn breaks<V>(
    n: Tree<V>,
    d: nat,
    max_depth: Option<usize>,
    max_elements: Option<usize>,
    message: Seq<char>,
    rule: Seq<char>,
) -> bool {
    ||| (rule == "max_depth"@ && max_depth is Some && d > max_depth->0 && message == depth_message(
        d,
        max_depth->0 as nat,
    ))
    ||| (rule == "max_elements"@ && max_elements is Some && n.children.len() > max_elements->0 && message
        == elements_message(n.children.len(), max_elements->0 as nat))
}

/// A path into an element of `t` extends to a path into `t`.
proof fn lemma_path_step<V>(t: Tree<V>, i: int, rest: Seq<int>)
    requires
        0 <= i < t.children.len(),
    ensures
        node_at(t, seq![i] + rest) == node_at(t.children[i], rest),
        path_text(seq![i] + rest) == seq!["elements"@, decimal(i as nat)] + path_text(rest),
{
    let p = seq![i] + rest;
    assert(p.skip(1) =~= rest);
    assert(p[0] == i);
}

/// The rule broken within `t` (root at `depth`, reported at `loc`) is broken by the
/// node that the reported location leads to.
proof fn lemma_tree_violation_at<V>(
    t: Tree<V>,
    max_depth: Option<usize>,
    max_elements: Option<usize>,
    depth: nat,
    loc: Seq<Seq<char>>,
)
    requires
        tree_violation(t, max_depth, max_elements, depth, loc) is Some,
    ensures
        ({
            let v = tree_violation(t, max_depth, max_elements, depth, loc)->Some_0;
            exists|idx: Seq<int>|
                v.2 == loc + path_text(idx) && #[trigger] node_at(t, idx) is Some && breaks(
                    node_at(t, idx)->Some_0,
                    depth + idx.len(),
                    max_depth,
                    max_elements,
                    v.0,
                    v.1,
                )
        }),
    decreases t, 1nat,
{
    let v = tree_violation(t, max_depth, max_elements, depth, loc)->Some_0;
    if node_violation(t, max_depth, max_elements, depth, loc) is Some {
        let idx = Seq::<int>::empty();
        assert(loc + path_text(idx) =~= loc);
        assert(node_at(t, idx) == Some(t));
        assert(breaks(t, depth + idx.len(), max_depth, max_elements, v.0, v.1));
    } else {
        lemma_forest_violation_at(t.children, max_depth, max_elements, depth + 1, loc);
        let (i, ic) = choose|i: int, ic: Seq<int>|
            0 <= i < t.children.len() && v.2 == loc + seq!["elements"@, decimal(i as nat)] + path_text(ic)
                && #[trigger] node_at(t.children[i], ic) is Some && breaks(
                node_at(t.children[i], ic)->Some_0,
                depth + 1 + ic.len(),
                max_depth,
                max_elements,
                v.0,
                v.1,
            );
        let idx = seq![i] + ic;
        lemma_path_step(t, i, ic);
        assert(loc + seq!["elements"@, decimal(i as nat)] + path_text(ic) =~= loc + path_text(idx));
        assert(node_at(t, idx) is Some);
    }
}

/// The rule broken within the elements `s` (at `depth`, of a node at `loc`) is broken
/// by the node that the reported location leads to, through one of the elements.
proof fn lemma_forest_violation_at<V>(
    s: Seq<Tree<V>>,
    max_depth: Option<usize>,
    max_elements: Option<usize>,
    depth: nat,
    loc: Seq<Seq<char>>,
)
    requires
        forest_violation(s, max_depth, max_elements, depth, loc) is Some,
    ensures
        ({
            let v = forest_violation(s, max_depth, max_elements, depth, loc)->Some_0;
            exists|i: int, ic: Seq<int>|
                0 <= i < s.len() && v.2 == loc + seq!["elements"@, decimal(i as nat)] + path_text(ic)
                    && #[trigger] node_at(s[i], ic) is Some && breaks(node_at(s[i], ic)->Some_0, depth + ic.len(), max_depth, max_elements, v.0, v.1)
        }),
    decreases s, 0nat,
{
    let v = forest_violation(s, max_depth, max_elements, depth, loc)->Some_0;
    if forest_violation(s.drop_last(), max_depth, max_elements, depth, loc) is Some {
        lemma_forest_violation_at(s.drop_last(), max_depth, max_elements, depth, loc);
        let (i, ic) = choose|i: int, ic: Seq<int>|
            0 <= i < s.drop_last().len() && v.2 == loc + seq!["elements"@, decimal(i as nat)] + path_text(ic)
                && #[trigger] node_at(s.drop_last()[i], ic) is Some && breaks(node_at(s.drop_last()[i], ic)->Some_0, depth + ic.len(), max_depth, max_elements, v.0, v.1);
        assert(s.drop_last()[i] == s[i]);
        assert(node_at(s[i], ic) is Some);
    } else {
        let i = s.len() - 1;
        let loc2 = loc + seq!["elements"@, decimal(i as nat)];
        lemma_tree_violation_at(s.last(), max_depth, max_elements, depth, loc2);
        let ic = choose|ic: Seq<int>|
            v.2 == loc2 + path_text(ic) && #[trigger] node_at(s.last(), ic) is Some && breaks(
                node_at(s.last(), ic)->Some_0,
                depth + ic.len(),
                max_depth,
                max_elements,
                v.0,
                v.1,
            );
        assert(s[i] == s.last());
        assert(node_at(s[i], ic) is Some);
    }
}

/// A refusal from `validate` names a node that breaks a rule: its location is the
/// path of element indices from the root to that node, and its rule and message are
/// those of a node deeper than `max_depth` (the root at depth 0, one level per step)
/// or of one with more elements than `max_elements`.
pub proof fn lemma_validate_refusal_names_broken_node<V>(t: Tree<V>, rules: ValidationRules, r: Result<(), ValidationError>)
    requires
        match r {
            Ok(()) => tree_violation(t, rules.max_depth, rules.max_elements, 0, seq![]) is None,
            Err(e) => tree_violation(t, rules.max_depth, rules.max_elements, 0, seq![]) == Some(error_text(e)),
        },
        r is Err,
    ensures
        exists|idx: Seq<int>|
            texts(r->Err_0.location@) == path_text(idx) && #[trigger] node_at(t, idx) is Some && breaks(
                node_at(t, idx)->Some_0,
                idx.len(),
                rules.max_depth,
                rules.max_elements,
                r->Err_0.message@,
                r->Err_0.rule_violated@,
            ),
{
    lemma_tree_violation_at(t, rules.max_depth, rules.max_elements, 0, seq![]);
    let v = tree_violation(t, rules.max_depth, rules.max_elements, 0, seq![])->Some_0;
    let idx = choose|idx: Seq<int>|
        v.2 == seq![] + path_text(idx) && #[trigger] node_at(t, idx) is Some && breaks(
            node_at(t, idx)->Some_0,
            0 + idx.len(),
            rules.max_depth,
            rules.max_elements,
            v.0,
            v.1,
        );
    assert(seq![] + path_text(idx) =~= path_text(idx));
    assert(texts(r->Err_0.location@) == path_text(idx));
}

/// The root is checked first: a root with more elements than `max_elements` is what
/// `validate` reports, at the empty location.
pub proof fn lemma_validate_reports_root_first<V>(t: Tree<V>, rules: ValidationRules, r: Result<(), ValidationError>)
    requires
        match r {
            Ok(()) => tree_violation(t, rules.max_depth, rules.max_elements, 0, seq![]) is None,
            Err(e) => tree_violation(t, rules.max_depth, rules.max_elements, 0, seq![]) == Some(error_text(e)),
        },
        rules.max_elements is Some,
        t.children.len() > rules.max_elements->0,
    ensures
        r is Err,
        r->Err_0.rule_violated@ == "max_elements"@,
        r->Err_0.message@ == elements_message(t.children.len(), rules.max_elements->0 as nat),
        r->Err_0.location@.len() == 0,
{
    assert(node_violation(t, rules.max_depth, rules.max_elements, 0, seq![]) is Some);
    assert(texts(r->Err_0.location@).len() == r->Err_0.location@.len());
}

} // verus!
