use vstd::prelude::*;

use crate::pattern::{lemma_pattern_view, Pattern};
use crate::tree::{self, Tree};

verus! {

/// `b` is `a` with every value replaced by what `f` returned on it (same shape).
pub open spec fn mapped_by<V, W, F: Fn(&V) -> W>(f: F, a: Tree<V>, b: Tree<W>) -> bool
    decreases a,
{
    &&& f.ensures((&a.value,), b.value)
    &&& a.children.len() == b.children.len()
    &&& forall|i: int|
        0 <= i < a.children.len() ==> mapped_by(f, #[trigger] a.children[i], b.children[i])
}

/// Folding `f` from `acc` over `s`, left to right, can give `r`.
pub open spec fn folded<V, B, F: Fn(B, &V) -> B>(f: F, acc: B, s: Seq<V>, r: B) -> bool
    decreases s.len(),
{
    if s.len() == 0 {
        r == acc
    } else {
        exists|mid: B| folded(f, acc, s.drop_last(), mid) && #[trigger] f.ensures((mid, &s.last()), r)
    }
}

/// The values referred to by a sequence of references.
pub open spec fn deref_all<V>(s: Seq<&V>) -> Seq<V> {
    s.map_values(|x: &V| *x)
}

/// Folding over consecutive sequences composes.
pub proof fn lemma_folded_add<V, B, F: Fn(B, &V) -> B>(
    f: F,
    acc: B,
    s1: Seq<V>,
    mid: B,
    s2: Seq<V>,
    r: B,
)
    requires
        folded(f, acc, s1, mid),
        folded(f, mid, s2, r),
    ensures
        folded(f, acc, s1 + s2, r),
    decreases s2.len(),
{
    if s2.len() == 0 {
        assert(s1 + s2 =~= s1);
    } else {
        let m2 = choose|m: B| folded(f, mid, s2.drop_last(), m) && #[trigger] f.ensures((m, &s2.last()), r);
        lemma_folded_add(f, acc, s1, mid, s2.drop_last(), m2);
        assert((s1 + s2).drop_last() =~= s1 + s2.drop_last());
        assert((s1 + s2).last() == s2.last());
        assert(folded(f, acc, (s1 + s2).drop_last(), m2));
    }
}

/// A fold over a single value is one call.
pub proof fn lemma_folded_single<V, B, F: Fn(B, &V) -> B>(f: F, acc: B, v: V, r: B)
    requires
        f.ensures((acc, &v), r),
    ensures
        folded(f, acc, seq![v], r),
{
    assert(seq![v].drop_last() =~= Seq::<V>::empty());
    assert(folded(f, acc, seq![v].drop_last(), acc));
    assert(seq![v].last() == v);
    assert(f.ensures((acc, &seq![v].last()), r));
}

impl<V> Pattern<V> {
    /// Applies `f` to every value, keeping the structure.
    pub fn map<W, F>(self, f: F) -> (r: Pattern<W>)
        where
            F: Fn(&V) -> W,
        requires
            forall|v: &V| f.requires((v,)),
        ensures
            mapped_by(f, self@, r@),
    {
        self.map_with(&f)
    }

    fn map_with<W, F>(&self, f: &F) -> (r: Pattern<W>)
        where
            F: Fn(&V) -> W,
        requires
            forall|v: &V| f.requires((v,)),
        ensures
            mapped_by(*f, self@, r@),
        decreases self,
    {
        proof {
            lemma_pattern_view(*self);
        }
        let value = f(&self.value);
        let mut elements: Vec<Pattern<W>> = Vec::new();
        let mut i: usize = 0;
        while i < self.elements.len()
            invariant
                i <= self.elements.len(),
                elements.len() == i,
                forall|v: &V| f.requires((v,)),
                forall|k: int| 0 <= k < i ==> mapped_by(*f, #[trigger] self.elements@[k]@, elements@[k]@),
            decreases self.elements.len() - i,
        {
            let e = self.elements[i].map_with(f);
            elements.push(e);
            i = i + 1;
        }
        let r = Pattern { value, elements };
        proof {
            lemma_pattern_view(r);
            assert forall|k: int| 0 <= k < self@.children.len() implies mapped_by(*f, #[trigger] self@.children[k], r@.children[k]) by {
                assert(self@.children[k] == self.elements@[k]@);
                assert(r@.children[k] == r.elements@[k]@);
            }
        }
        r
    }

    /// Folds `f` over the values in pre-order, starting from `init`.
    pub fn fold<B, F>(&self, init: B, f: F) -> (r: B)
        where
            F: Fn(B, &V) -> B,
        requires
            forall|b: B, v: &V| f.requires((b, v)),
        ensures
            folded(f, init, tree::tree_values(self@), r),
    {
        self.fold_with(init, &f)
    }

    fn fold_with<B, F>(&self, acc: B, f: &F) -> (r: B)
        where
            F: Fn(B, &V) -> B,
        requires
            forall|b: B, v: &V| f.requires((b, v)),
        ensures
            folded(*f, acc, tree::tree_values(self@), r),
        decreases self,
    {
        proof {
            lemma_pattern_view(*self);
        }
        let ghost acc0 = acc;
        let mut acc = f(acc, &self.value);
        proof {
            lemma_folded_single(*f, acc0, self.value, acc);
            assert(seq![self.value] + tree::forest_values(self@.children.take(0)) =~= seq![self.value]);
        }
        let mut i: usize = 0;
        while i < self.elements.len()
            invariant
                i <= self.elements.len(),
                self@.children.len() == self.elements.len(),
                forall|k: int| 0 <= k < self.elements.len() ==> #[trigger] self@.children[k] == self.elements@[k]@,
                forall|b: B, v: &V| f.requires((b, v)),
                folded(*f, acc0, seq![self.value] + tree::forest_values(self@.children.take(i as int)), acc),
            decreases self.elements.len() - i,
        {
            let ghost before = acc;
            acc = self.elements[i].fold_with(acc, f);
            proof {
                let pre = seq![self.value] + tree::forest_values(self@.children.take(i as int));
                lemma_folded_add(*f, acc0, pre, before, tree::tree_values(self@.children[i as int]), acc);
                tree::lemma_forest_step(self@.children, i as int);
                assert(pre + tree::tree_values(self@.children[i as int]) =~= seq![self.value] + tree::forest_values(self@.children.take(i + 1)));
            }
            i = i + 1;
        }
        proof {
            tree::lemma_take_full(self@.children);
        }
        acc
    }

    /// References to all values, in pre-order.
    pub fn values(&self) -> (r: Vec<&V>)
        ensures
            deref_all(r@) == tree::tree_values(self@),
    {
        let mut result: Vec<&V> = Vec::new();
        self.collect_values(&mut result);
        proof {
            assert(deref_all(Seq::<&V>::empty()) + tree::tree_values(self@) =~= tree::tree_values(self@));
        }
        result
    }

    fn collect_values<'a>(&'a self, result: &mut Vec<&'a V>)
        ensures
            deref_all(final(result)@) == deref_all(old(result)@) + tree::tree_values(self@),
        decreases self,
    {
        proof {
            lemma_pattern_view(*self);
        }
        let ghost start = deref_all(result@);
        result.push(&self.value);
        proof {
            assert(deref_all(result@) =~= start + seq![self.value] + tree::forest_values(self@.children.take(0)));
        }
        let mut i: usize = 0;
        while i < self.elements.len()
            invariant
                i <= self.elements.len(),
                self@.children.len() == self.elements.len(),
                forall|k: int| 0 <= k < self.elements.len() ==> #[trigger] self@.children[k] == self.elements@[k]@,
                deref_all(result@) == start + seq![self.value] + tree::forest_values(self@.children.take(i as int)),
            decreases self.elements.len() - i,
        {
            self.elements[i].collect_values(result);
            proof {
                tree::lemma_forest_step(self@.children, i as int);
                assert(deref_all(result@) =~= start + seq![self.value] + tree::forest_values(self@.children.take(i + 1)));
            }
            i = i + 1;
        }
        proof {
            tree::lemma_take_full(self@.children);
            assert(deref_all(result@) =~= start + tree::tree_values(self@));
        }
    }
}

} // verus!
