use vstd::prelude::*;

use crate::tree::{self, Tree};

pub mod combine;
pub mod comonad;
pub mod comonad_helpers;
pub mod fold_map;
pub mod laws;
pub mod layout;
pub mod matching;
pub mod traversable;
pub mod unfold;
pub mod validation;
pub mod analysis;

verus! {

/// A recursive, nested structure: a value decorated with an ordered sequence of
/// sub-patterns (its elements).
#[derive(Debug, PartialEq, Eq, PartialOrd, Ord, Hash)]
pub struct Pattern<V> {
    /// The value decorating this pattern.
    pub value: V,
    /// The sub-patterns, in order.
    pub elements: Vec<Pattern<V>>,
}

/// The tree that a pattern denotes.
pub open spec fn pattern_tree<V>(p: Pattern<V>) -> Tree<V>
    decreases p,
{
    Tree {
        value: p.value,
        children: Seq::new(
            p.elements@.len(),
            |i: int|
                if 0 <= i < p.elements@.len() {
                    pattern_tree(p.elements@[i])
                } else {
                    tree::leaf(p.value)
                },
        ),
    }
}

/// The trees that a sequence of patterns denotes.
pub open spec fn patterns_forest<V>(s: Seq<Pattern<V>>) -> Seq<Tree<V>> {
    Seq::new(s.len(), |i: int| pattern_tree(s[i]))
}

impl<V> View for Pattern<V> {
    type V = Tree<V>;

    open spec fn view(&self) -> Tree<V> {
        pattern_tree(*self)
    }
}

/// How a pattern's view relates to its fields.
pub proof fn lemma_pattern_view<V>(p: Pattern<V>)
    ensures
        p@.value == p.value,
        p@.children.len() == p.elements.len(),
        forall|i: int| 0 <= i < p.elements.len() ==> #[trigger] p@.children[i] == p.elements@[i]@,
        p@.children == patterns_forest(p.elements@),
{
    assert(p@.children =~= patterns_forest(p.elements@));
}

impl<V: Clone> Clone for Pattern<V> {
    /// A copy of this pattern, cloning every value.
    fn clone(&self) -> (r: Self)
        ensures
            tree::cloned_tree(self@, r@),
        decreases self,
    {
        proof {
            lemma_pattern_view(*self);
        }
        let value = self.value.clone();
        let mut elements: Vec<Pattern<V>> = Vec::new();
        let mut i: usize = 0;
        while i < self.elements.len()
            invariant
                i <= self.elements.len(),
                elements.len() == i,
                forall|k: int|
                    0 <= k < i ==> tree::cloned_tree(#[trigger] self.elements@[k]@, elements@[k]@),
            decreases self.elements.len() - i,
        {
            let e = self.elements[i].clone();
            elements.push(e);
            i = i + 1;
        }
        let r = Pattern { value, elements };
        proof {
            lemma_pattern_view(r);
        }
        r
    }
}

impl<V> Pattern<V> {
    /// Creates an atomic pattern (a pattern without elements).
    pub fn point(value: V) -> (r: Self)
        ensures
            r.value == value,
            r.elements@.len() == 0,
            r@ == tree::leaf(value),
    {
        let r = Pattern { value, elements: Vec::new() };
        proof {
            lemma_pattern_view(r);
            assert(r@.children =~= Seq::<Tree<V>>::empty());
        }
        r
    }

    /// Creates a pattern from a value and its elements.
    #[allow(clippy::self_named_constructors)]
    pub fn pattern(value: V, elements: Vec<Pattern<V>>) -> (r: Self)
        ensures
            r.value == value,
            r.elements == elements,
            r@ == (Tree { value, children: patterns_forest(elements@) }),
    {
        let r = Pattern { value, elements };
        proof {
            lemma_pattern_view(r);
        }
        r
    }

    /// Creates a pattern whose elements are atomic patterns holding the given values.
    pub fn from_list(value: V, values: Vec<V>) -> (r: Self)
        ensures
            r.value == value,
            r.elements.len() == values.len(),
            forall|i: int| 0 <= i < values.len() ==> #[trigger] r.elements@[i]@ == tree::leaf(values@[i]),
    {
        let mut rest = values;
        let mut rev: Vec<Pattern<V>> = Vec::new();
        let ghost orig = rest@;
        while rest.len() > 0
            invariant
                rest@ == orig.take(rest.len() as int),
                rest.len() <= orig.len(),
                rev.len() == orig.len() - rest.len(),
                forall|k: int|
                    0 <= k < rev.len() ==> #[trigger] rev@[k]@ == tree::leaf(orig[orig.len() - 1 - k]),
            decreases rest.len(),
        {
            let v = rest.pop().unwrap();
            proof {
                tree::lemma_take_step(orig, rest.len() as int);
            }
            rev.push(Pattern::point(v));
        }
        let mut elements: Vec<Pattern<V>> = Vec::new();
        while rev.len() > 0
            invariant
                rev.len() + elements.len() == orig.len(),
                forall|k: int|
                    0 <= k < rev.len() ==> #[trigger] rev@[k]@ == tree::leaf(orig[orig.len() - 1 - k]),
                forall|k: int| 0 <= k < elements.len() ==> #[trigger] elements@[k]@ == tree::leaf(orig[k]),
            decreases rev.len(),
        {
            let p = rev.pop().unwrap();
            elements.push(p);
        }
        Pattern { value, elements }
    }

    /// The value of this pattern.
    pub fn value(&self) -> (r: &V)
        ensures
            *r == self.value,
    {
        &self.value
    }

    /// The elements of this pattern.
    pub fn elements(&self) -> (r: &[Pattern<V>])
        ensures
            r@ == self.elements@,
    {
        self.elements.as_slice()
    }

    /// Number of direct elements.
    pub fn length(&self) -> (r: usize)
        ensures
            r == self@.children.len(),
    {
        proof {
            lemma_pattern_view(*self);
        }
        self.elements.len()
    }

    /// Whether this pattern has no elements.
    pub fn is_atomic(&self) -> (r: bool)
        ensures
            r == (self@.children.len() == 0),
    {
        proof {
            lemma_pattern_view(*self);
        }
        self.elements.len() == 0
    }

    /// Total number of nodes: this pattern plus all nested elements.
    pub fn size(&self) -> (r: usize)
        requires
            tree::tree_size(self@) <= usize::MAX,
        ensures
            r == tree::tree_size(self@),
        decreases self,
    {
        proof {
            lemma_pattern_view(*self);
        }
        let mut total: usize = 1;
        let mut i: usize = 0;
        while i < self.elements.len()
            invariant
                i <= self.elements.len(),
                self@.children.len() == self.elements.len(),
                forall|k: int| 0 <= k < self.elements.len() ==> #[trigger] self@.children[k] == self.elements@[k]@,
                total == 1 + tree::forest_size(self@.children.take(i as int)),
                tree::tree_size(self@) <= usize::MAX,
            decreases self.elements.len() - i,
        {
            proof {
                tree::lemma_forest_size_prefix(self@.children, i as int);
                tree::lemma_forest_step(self@.children, i as int);
            }
            let s = self.elements[i].size();
            total = total + s;
            i = i + 1;
        }
        proof {
            tree::lemma_take_full(self@.children);
        }
        total
    }

    /// Length of the longest path from this pattern to an atomic pattern.
    pub fn depth(&self) -> (r: usize)
        requires
            tree::tree_size(self@) <= usize::MAX,
        ensures
            r == tree::tree_depth(self@),
        decreases self,
    {
        proof {
            lemma_pattern_view(*self);
            tree::lemma_depth_lt_size(self@);
        }
        if self.elements.len() == 0 {
            return 0;
        }
        let mut best: usize = 0;
        let mut i: usize = 0;
        while i < self.elements.len()
            invariant
                i <= self.elements.len(),
                self.elements.len() > 0,
                self@.children.len() == self.elements.len(),
                forall|k: int| 0 <= k < self.elements.len() ==> #[trigger] self@.children[k] == self.elements@[k]@,
                best == tree::forest_depth(self@.children.take(i as int)),
                tree::tree_size(self@) <= usize::MAX,
                tree::tree_depth(self@) < tree::tree_size(self@),
            decreases self.elements.len() - i,
        {
            proof {
                tree::lemma_forest_size_prefix(self@.children, i as int);
                tree::lemma_forest_step(self@.children, i as int);
            }
            let d = self.elements[i].depth();
            if d > best {
                best = d;
            }
            i = i + 1;
        }
        proof {
            tree::lemma_take_full(self@.children);
        }
        best + 1
    }
}


impl<V> Pattern<V> {
    /// Whether some value in the pattern satisfies the predicate (pre-order, stops at the
    /// first value on which the predicate holds).
    pub fn any_value<F>(&self, predicate: F) -> (r: bool)
        where
            F: Fn(&V) -> bool,
        requires
            forall|v: &V| predicate.requires((v,)),
        ensures
            r ==> exists|v: &V| tree::tree_values(self@).contains(*v) && #[trigger] predicate.ensures((v,), true),
            !r ==> forall|v: &V| tree::tree_values(self@).contains(*v) ==> #[trigger] predicate.ensures((v,), false),
    {
        self.any_value_recursive(&predicate)
    }

    fn any_value_recursive<F>(&self, predicate: &F) -> (r: bool)
        where
            F: Fn(&V) -> bool,
        requires
            forall|v: &V| predicate.requires((v,)),
        ensures
            r ==> exists|v: &V| tree::tree_values(self@).contains(*v) && #[trigger] predicate.ensures((v,), true),
            !r ==> forall|v: &V| tree::tree_values(self@).contains(*v) ==> #[trigger] predicate.ensures((v,), false),
        decreases self,
    {
        proof {
            lemma_pattern_view(*self);
        }
        let here = predicate(&self.value);
        if here {
            proof {
                tree::lemma_tree_values_contains(self@, self.value);
            }
            return true;
        }
        let mut i: usize = 0;
        while i < self.elements.len()
            invariant
                i <= self.elements.len(),
                self@.children.len() == self.elements.len(),
                forall|k: int| 0 <= k < self.elements.len() ==> #[trigger] self@.children[k] == self.elements@[k]@,
                forall|v: &V| predicate.requires((v,)),
                predicate.ensures((&self.value,), false),
                forall|k: int, v: &V|
                    0 <= k < i && tree::tree_values(#[trigger] self@.children[k]).contains(*v)
                        ==> #[trigger] predicate.ensures((v,), false),
            decreases self.elements.len() - i,
        {
            if self.elements[i].any_value_recursive(predicate) {
                proof {
                    let v = choose|v: &V| tree::tree_values(self.elements@[i as int]@).contains(*v)
                        && #[trigger] predicate.ensures((v,), true);
                    assert(tree::tree_values(self@.children[i as int]).contains(*v));
                    tree::lemma_tree_values_contains(self@, *v);
                }
                return true;
            }
            i = i + 1;
        }
        proof {
            assert forall|v: &V| tree::tree_values(self@).contains(*v) implies #[trigger] predicate.ensures((v,), false) by {
                tree::lemma_tree_values_contains(self@, *v);
                if *v != self.value {
                    let j = choose|j: int| 0 <= j < self@.children.len() && #[trigger] tree::tree_values(self@.children[j]).contains(*v);
                }
            }
        }
        false
    }
}


/// All sub-patterns of a pattern in pre-order, starting with the pattern itself.
pub open spec fn subpatterns<V>(p: Pattern<V>) -> Seq<Pattern<V>>
    decreases p,
{
    seq![p] + forest_subpatterns(p.elements@)
}

/// All sub-patterns of a sequence of patterns in pre-order.
pub open spec fn forest_subpatterns<V>(s: Seq<Pattern<V>>) -> Seq<Pattern<V>>
    decreases s,
{
    if s.len() == 0 {
        Seq::empty()
    } else {
        forest_subpatterns(s.drop_last()) + subpatterns(s.last())
    }
}

/// `r` lists, in order, the members of `s` on which the predicate returned `true`; it
/// returned `false` on the others.
pub open spec fn selected<V, F: Fn(&Pattern<V>) -> bool>(
    pred: F,
    s: Seq<Pattern<V>>,
    r: Seq<&Pattern<V>>,
) -> bool
    decreases s.len(),
{
    if s.len() == 0 {
        r.len() == 0
    } else {
        ||| {
            &&& pred.ensures((&s.last(),), true)
            &&& r.len() > 0
            &&& *r.last() == s.last()
            &&& selected(pred, s.drop_last(), r.drop_last())
        }
        ||| {
            &&& pred.ensures((&s.last(),), false)
            &&& selected(pred, s.drop_last(), r)
        }
    }
}

/// Sub-patterns of a concatenation.
pub proof fn lemma_forest_subpatterns_add<V>(a: Seq<Pattern<V>>, b: Seq<Pattern<V>>)
    ensures
        forest_subpatterns(a + b) == forest_subpatterns(a) + forest_subpatterns(b),
    decreases b.len(),
{
    if b.len() == 0 {
        assert(a + b =~= a);
        assert(forest_subpatterns(a) + forest_subpatterns(b) =~= forest_subpatterns(a));
    } else {
        lemma_forest_subpatterns_add(a, b.drop_last());
        assert((a + b).drop_last() =~= a + b.drop_last());
        assert((a + b).last() == b.last());
        assert(forest_subpatterns(a + b) =~= forest_subpatterns(a) + forest_subpatterns(b));
    }
}

/// Selections of consecutive sequences concatenate.
pub proof fn lemma_selected_add<V, F: Fn(&Pattern<V>) -> bool>(
    pred: F,
    s1: Seq<Pattern<V>>,
    r1: Seq<&Pattern<V>>,
    s2: Seq<Pattern<V>>,
    r2: Seq<&Pattern<V>>,
)
    requires
        selected(pred, s1, r1),
        selected(pred, s2, r2),
    ensures
        selected(pred, s1 + s2, r1 + r2),
    decreases s2.len(),
{
    if s2.len() == 0 {
        assert(s1 + s2 =~= s1);
        assert(r2.len() == 0);
        assert(r1 + r2 =~= r1);
    } else {
        assert((s1 + s2).drop_last() =~= s1 + s2.drop_last());
        assert((s1 + s2).last() == s2.last());
        if pred.ensures((&s2.last(),), true) && r2.len() > 0 && *r2.last() == s2.last()
            && selected(pred, s2.drop_last(), r2.drop_last()) {
            lemma_selected_add(pred, s1, r1, s2.drop_last(), r2.drop_last());
            assert((r1 + r2).drop_last() =~= r1 + r2.drop_last());
        } else {
            lemma_selected_add(pred, s1, r1, s2.drop_last(), r2);
        }
    }
}

impl<V> Pattern<V> {
    /// Whether every value in the pattern satisfies the predicate (pre-order, stops at the
    /// first value on which the predicate fails).
    pub fn all_values<F>(&self, predicate: F) -> (r: bool)
        where
            F: Fn(&V) -> bool,
        requires
            forall|v: &V| predicate.requires((v,)),
        ensures
            r ==> forall|v: &V| tree::tree_values(self@).contains(*v) ==> #[trigger] predicate.ensures((v,), true),
            !r ==> exists|v: &V| tree::tree_values(self@).contains(*v) && #[trigger] predicate.ensures((v,), false),
    {
        self.all_values_recursive(&predicate)
    }

    fn all_values_recursive<F>(&self, predicate: &F) -> (r: bool)
        where
            F: Fn(&V) -> bool,
        requires
            forall|v: &V| predicate.requires((v,)),
        ensures
            r ==> forall|v: &V| tree::tree_values(self@).contains(*v) ==> #[trigger] predicate.ensures((v,), true),
            !r ==> exists|v: &V| tree::tree_values(self@).contains(*v) && #[trigger] predicate.ensures((v,), false),
        decreases self,
    {
        proof {
            lemma_pattern_view(*self);
        }
        let here = predicate(&self.value);
        if !here {
            proof {
                tree::lemma_tree_values_contains(self@, self.value);
            }
            return false;
        }
        let mut i: usize = 0;
        while i < self.elements.len()
            invariant
                i <= self.elements.len(),
                self@.children.len() == self.elements.len(),
                forall|k: int| 0 <= k < self.elements.len() ==> #[trigger] self@.children[k] == self.elements@[k]@,
                forall|v: &V| predicate.requires((v,)),
                predicate.ensures((&self.value,), true),
                forall|k: int, v: &V|
                    0 <= k < i && tree::tree_values(#[trigger] self@.children[k]).contains(*v)
                        ==> #[trigger] predicate.ensures((v,), true),
            decreases self.elements.len() - i,
        {
            if !self.elements[i].all_values_recursive(predicate) {
                proof {
                    let v = choose|v: &V| tree::tree_values(self.elements@[i as int]@).contains(*v)
                        && #[trigger] predicate.ensures((v,), false);
                    assert(tree::tree_values(self@.children[i as int]).contains(*v));
                    tree::lemma_tree_values_contains(self@, *v);
                }
                return false;
            }
            i = i + 1;
        }
        proof {
            assert forall|v: &V| tree::tree_values(self@).contains(*v) implies #[trigger] predicate.ensures((v,), true) by {
                tree::lemma_tree_values_contains(self@, *v);
                if *v != self.value {
                    let j = choose|j: int| 0 <= j < self@.children.len() && #[trigger] tree::tree_values(self@.children[j]).contains(*v);
                }
            }
        }
        true
    }

    /// The sub-patterns (this pattern included, pre-order) on which the predicate holds.
    pub fn filter<F>(&self, predicate: F) -> (r: Vec<&Pattern<V>>)
        where
            F: Fn(&Pattern<V>) -> bool,
        requires
            forall|p: &Pattern<V>| predicate.requires((p,)),
        ensures
            selected(predicate, subpatterns(*self), r@),
    {
        let mut result: Vec<&Pattern<V>> = Vec::new();
        self.filter_recursive(&predicate, &mut result);
        proof {
            assert(result@.skip(0) =~= result@);
        }
        result
    }

    fn filter_recursive<'a, F>(&'a self, predicate: &F, result: &mut Vec<&'a Pattern<V>>)
        where
            F: Fn(&Pattern<V>) -> bool,
        requires
            forall|p: &Pattern<V>| predicate.requires((p,)),
        ensures
            final(result)@.len() >= old(result)@.len(),
            final(result)@.take(old(result)@.len() as int) == old(result)@,
            selected(*predicate, subpatterns(*self), final(result)@.skip(old(result)@.len() as int)),
        decreases self,
    {
        let ghost start = result@.len() as int;
        let ghost before = result@;
        let here = predicate(self);
        if here {
            result.push(self);
        }
        proof {
            let own = result@.skip(start);
            let single = seq![*self];
            assert(single.last() == *self);
            assert(single.len() == 1);
            if here {
                assert(own.len() == 1);
                assert(*own.last() == *self);
                assert(predicate.ensures((&single.last(),), true));
                assert(own.drop_last() =~= Seq::<&Pattern<V>>::empty());
                assert(selected(*predicate, Seq::<Pattern<V>>::empty(), own.drop_last()));
                assert(seq![*self].drop_last() =~= Seq::<Pattern<V>>::empty());
            } else {
                assert(own =~= Seq::<&Pattern<V>>::empty());
                assert(seq![*self].drop_last() =~= Seq::<Pattern<V>>::empty());
                assert(predicate.ensures((&single.last(),), false));
                assert(selected(*predicate, Seq::<Pattern<V>>::empty(), own));
            }
            assert(selected(*predicate, seq![*self], own));
            assert(seq![*self] =~= seq![*self] + forest_subpatterns(self.elements@.take(0)));
        }
        let mut i: usize = 0;
        while i < self.elements.len()
            invariant
                i <= self.elements.len(),
                forall|p: &Pattern<V>| predicate.requires((p,)),
                result@.len() >= start,
                result@.take(start) == before,
                start == before.len(),
                selected(*predicate, seq![*self] + forest_subpatterns(self.elements@.take(i as int)), result@.skip(start)),
            decreases self.elements.len() - i,
        {
            let ghost mid = result@;
            self.elements[i].filter_recursive(predicate, result);
            proof {
                let a = seq![*self] + forest_subpatterns(self.elements@.take(i as int));
                let b = subpatterns(self.elements@[i as int]);
                lemma_selected_add(*predicate, a, mid.skip(start), b, result@.skip(mid.len() as int));
                assert(mid.skip(start) + result@.skip(mid.len() as int) =~= result@.skip(start));
                assert(result@.take(start) =~= mid.take(start));
                tree::lemma_take_step(self.elements@, i as int);
                assert(a + b =~= seq![*self] + forest_subpatterns(self.elements@.take(i + 1)));
            }
            i = i + 1;
        }
        proof {
            tree::lemma_take_full(self.elements@);
        }
    }
}


/// The predicate returned `false` on every member of `s`.
pub open spec fn rejects_all<V, F: Fn(&Pattern<V>) -> bool>(pred: F, s: Seq<Pattern<V>>) -> bool {
    forall|j: int| 0 <= j < s.len() ==> #[trigger] pred.ensures((&s[j],), false)
}

/// `r` is the first member of `s` on which the predicate returned `true`, having returned
/// `false` on all earlier members; `None` when it returned `false` on every member.
pub open spec fn first_found<V, F: Fn(&Pattern<V>) -> bool>(
    pred: F,
    s: Seq<Pattern<V>>,
    r: Option<&Pattern<V>>,
) -> bool {
    match r {
        Some(q) => exists|k: int|
            #![trigger s[k]]
            0 <= k < s.len() && s[k] == *q && pred.ensures((&s[k],), true) && rejects_all(
                pred,
                s.take(k),
            ),
        None => rejects_all(pred, s),
    }
}

/// Splitting the pre-order sub-patterns of a pattern around its `i`-th element.
pub proof fn lemma_subpatterns_split<V>(p: Pattern<V>, i: int)
    requires
        0 <= i < p.elements.len(),
    ensures
        subpatterns(p) == (seq![p] + forest_subpatterns(p.elements@.take(i))) + subpatterns(
            p.elements@[i],
        ) + forest_subpatterns(p.elements@.skip(i + 1)),
        forest_subpatterns(p.elements@.take(i + 1)) == forest_subpatterns(p.elements@.take(i))
            + subpatterns(p.elements@[i]),
{
    let s = p.elements@;
    tree::lemma_take_step(s, i);
    lemma_forest_subpatterns_add(s.take(i + 1), s.skip(i + 1));
    assert(s.take(i + 1) + s.skip(i + 1) =~= s);
}

impl<V> Pattern<V> {
    /// The first sub-pattern (this pattern included, pre-order) on which the predicate holds.
    pub fn find_first<F>(&self, predicate: F) -> (r: Option<&Pattern<V>>)
        where
            F: Fn(&Pattern<V>) -> bool,
        requires
            forall|p: &Pattern<V>| predicate.requires((p,)),
        ensures
            first_found(predicate, subpatterns(*self), r),
    {
        self.find_first_recursive(&predicate)
    }

    fn find_first_recursive<'a, F>(&'a self, predicate: &F) -> (r: Option<&'a Pattern<V>>)
        where
            F: Fn(&Pattern<V>) -> bool,
        requires
            forall|p: &Pattern<V>| predicate.requires((p,)),
        ensures
            first_found(*predicate, subpatterns(*self), r),
        decreases self,
    {
        let ghost all = subpatterns(*self);
        let here = predicate(self);
        if here {
            proof {
                assert(all[0] == *self);
                assert(all.take(0) =~= Seq::<Pattern<V>>::empty());
            }
            return Some(self);
        }
        proof {
            assert(seq![*self] + forest_subpatterns(self.elements@.take(0)) =~= seq![*self]);
            assert(rejects_all(*predicate, seq![*self]));
        }
        let mut i: usize = 0;
        while i < self.elements.len()
            invariant
                i <= self.elements.len(),
                forall|p: &Pattern<V>| predicate.requires((p,)),
                all == subpatterns(*self),
                rejects_all(*predicate, seq![*self] + forest_subpatterns(self.elements@.take(i as int))),
            decreases self.elements.len() - i,
        {
            let found = self.elements[i].find_first_recursive(predicate);
            let ghost prefix = seq![*self] + forest_subpatterns(self.elements@.take(i as int));
            let ghost sub = subpatterns(self.elements@[i as int]);
            proof {
                lemma_subpatterns_split(*self, i as int);
            }
            match found {
                Some(q) => {
                    proof {
                        let k2 = choose|k: int|
                            #![trigger sub[k]]
                            0 <= k < sub.len() && sub[k] == *q && predicate.ensures((&sub[k],), true)
                                && rejects_all(*predicate, sub.take(k));
                        let k = prefix.len() + k2;
                        let rest = forest_subpatterns(self.elements@.skip(i + 1));
                        assert(all == prefix + sub + rest);
                        assert(all[k] == sub[k2]);
                        assert(all.take(k) =~= prefix + sub.take(k2));
                        assert forall|j: int| 0 <= j < all.take(k).len() implies #[trigger] predicate.ensures((&all.take(k)[j],), false) by {
                            if j < prefix.len() {
                                assert(all.take(k)[j] == prefix[j]);
                            } else {
                                assert(all.take(k)[j] == sub.take(k2)[j - prefix.len()]);
                            }
                        }
                    }
                    return Some(q);
                }
                None => {
                    proof {
                        let next = seq![*self] + forest_subpatterns(self.elements@.take(i + 1));
                        assert(next =~= prefix + sub);
                        assert forall|j: int| 0 <= j < next.len() implies #[trigger] predicate.ensures((&next[j],), false) by {
                            if j < prefix.len() {
                                assert(next[j] == prefix[j]);
                            } else {
                                assert(next[j] == sub[j - prefix.len()]);
                            }
                        }
                    }
                }
            }
            i = i + 1;
        }
        proof {
            tree::lemma_take_full(self.elements@);
        }
        None
    }
}


/// What the pre-order sub-patterns of a sequence of patterns contain.
pub proof fn lemma_forest_subpatterns_contains<V>(s: Seq<Pattern<V>>, x: Pattern<V>)
    ensures
        forest_subpatterns(s).contains(x) <==> exists|j: int|
            0 <= j < s.len() && #[trigger] subpatterns(s[j]).contains(x),
    decreases s.len(),
{
    if s.len() > 0 {
        lemma_forest_subpatterns_contains(s.drop_last(), x);
        tree::lemma_contains_add(forest_subpatterns(s.drop_last()), subpatterns(s.last()), x);
        if exists|j: int| 0 <= j < s.len() && #[trigger] subpatterns(s[j]).contains(x) {
            let j = choose|j: int| 0 <= j < s.len() && #[trigger] subpatterns(s[j]).contains(x);
            if j < s.len() - 1 {
                assert(subpatterns(s.drop_last()[j]).contains(x));
            }
        }
    }
}

/// What the pre-order sub-patterns of a pattern contain.
pub proof fn lemma_subpatterns_contains<V>(p: Pattern<V>, x: Pattern<V>)
    ensures
        subpatterns(p).contains(x) <==> x == p || exists|j: int|
            0 <= j < p.elements.len() && #[trigger] subpatterns(p.elements@[j]).contains(x),
{
    lemma_forest_subpatterns_contains(p.elements@, x);
    tree::lemma_contains_add(seq![p], forest_subpatterns(p.elements@), x);
    assert(seq![p].contains(x) <==> x == p) by {
        if x == p {
            assert(seq![p][0] == x);
        }
    }
}

/// A sub-pattern is no larger than the pattern that contains it.
pub proof fn lemma_subpattern_size<V>(p: Pattern<V>, q: Pattern<V>)
    requires
        subpatterns(p).contains(q),
    ensures
        tree::tree_size(q@) <= tree::tree_size(p@),
    decreases p,
{
    lemma_subpatterns_contains(p, q);
    lemma_pattern_view(p);
    if q != p {
        let j = choose|j: int| 0 <= j < p.elements.len() && #[trigger] subpatterns(p.elements@[j]).contains(q);
        lemma_subpattern_size(p.elements@[j], q);
        tree::lemma_child_size(p@, j);
    }
}

} // verus!
