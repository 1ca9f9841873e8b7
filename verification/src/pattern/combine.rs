use vstd::prelude::*;

use crate::pattern::{lemma_pattern_view, patterns_forest, Pattern};
use crate::tree::{self, Tree};
use crate::Combinable;

verus! {

/// `r` is the combination of `a` and `b`: the values combined, the elements of `a`
/// followed by those of `b`.
pub open spec fn combined<V: Combinable>(a: Tree<V>, b: Tree<V>, r: Tree<V>) -> bool {
    &&& r.value@ == V::combine_view(a.value@, b.value@)
    &&& r.children == a.children + b.children
}

/// Pattern combination is associative: combining `a` with `b` and then with `c`
/// gives the same value (by view) and the same elements as combining `a` with the
/// combination of `b` and `c`.
pub proof fn lemma_combine_associative<V: Combinable>(
    a: Tree<V>,
    b: Tree<V>,
    c: Tree<V>,
    ab: Tree<V>,
    ab_c: Tree<V>,
    bc: Tree<V>,
    a_bc: Tree<V>,
)
    requires
        combined(a, b, ab),
        combined(ab, c, ab_c),
        combined(b, c, bc),
        combined(a, bc, a_bc),
    ensures
        ab_c.value@ == a_bc.value@,
        ab_c.children == a_bc.children,
{
    V::lemma_combine_associative(a.value@, b.value@, c.value@);
    assert((a.children + b.children) + c.children =~= a.children + (b.children + c.children));
}

/// An atomic pattern whose value is a left identity of value combination is a left
/// identity of pattern combination.
pub proof fn lemma_combine_left_identity<V: Combinable>(d: Tree<V>, p: Tree<V>, r: Tree<V>)
    requires
        d.children.len() == 0,
        V::combine_view(d.value@, p.value@) == p.value@,
        combined(d, p, r),
    ensures
        r.value@ == p.value@,
        r.children == p.children,
{
    assert(d.children + p.children =~= p.children);
}

/// An atomic pattern whose value is a right identity of value combination is a right
/// identity of pattern combination.
pub proof fn lemma_combine_right_identity<V: Combinable>(p: Tree<V>, d: Tree<V>, r: Tree<V>)
    requires
        d.children.len() == 0,
        V::combine_view(p.value@, d.value@) == p.value@,
        combined(p, d, r),
    ensures
        r.value@ == p.value@,
        r.children == p.children,
{
    assert(p.children + d.children =~= p.children);
}

/// `v` reversed.
pub(crate) fn reversed<T>(v: Vec<T>) -> (r: Vec<T>)
    ensures
        r@ == v@.reverse(),
{
    let ghost s = v@;
    let mut v = v;
    let mut r: Vec<T> = Vec::new();
    while v.len() > 0
        invariant
            v@ == s.take(v.len() as int),
            v.len() <= s.len(),
            r.len() + v.len() == s.len(),
            forall|k: int| 0 <= k < r.len() ==> #[trigger] r@[k] == s[s.len() - 1 - k],
        decreases v.len(),
    {
        let x = v.pop().unwrap();
        proof {
            tree::lemma_take_step(s, v.len() as int);
        }
        r.push(x);
    }
    assert(r@ =~= s.reverse());
    r
}

impl<V: Combinable> Pattern<V> {
    /// Combines two patterns: the values are combined and the elements of `other`
    /// follow those of `self`.
    pub fn combine(self, other: Self) -> (r: Self)
        ensures
            combined(self@, other@, r@),
    {
        proof {
            lemma_pattern_view(self);
            lemma_pattern_view(other);
        }
        let value = self.value.combine(other.value);
        let mut elements = self.elements;
        let mut rest = other.elements;
        let ghost a = elements@;
        let ghost b = rest@;
        elements.append(&mut rest);
        let r = Pattern { value, elements };
        proof {
            lemma_pattern_view(r);
            assert(r@.children =~= self@.children + other@.children);
        }
        r
    }

    /// Pairs up `left`, `right` and `values` position by position (as far as the
    /// shortest goes), making a pattern of each value with its two elements.
    pub fn zip3(left: Vec<Pattern<V>>, right: Vec<Pattern<V>>, values: Vec<V>) -> (r: Vec<Pattern<V>>)
        ensures
            r.len() == vstd::math::min(
                vstd::math::min(left.len() as int, right.len() as int),
                values.len() as int,
            ),
            forall|i: int|
                0 <= i < r.len() ==> #[trigger] r@[i]@ == (Tree {
                    value: values@[i],
                    children: seq![left@[i]@, right@[i]@],
                }),
    {
        let mut n = left.len();
        if right.len() < n {
            n = right.len();
        }
        if values.len() < n {
            n = values.len();
        }
        let mut l = left;
        let mut rt = right;
        let mut vs = values;
        l.truncate(n);
        rt.truncate(n);
        vs.truncate(n);
        let ghost l0 = l@;
        let ghost r0 = rt@;
        let ghost v0 = vs@;
        let mut backwards: Vec<Pattern<V>> = Vec::new();
        while vs.len() > 0
            invariant
                l.len() == rt.len(),
                rt.len() == vs.len(),
                l0.len() == n,
                r0.len() == n,
                v0.len() == n,
                l@ == l0.take(l.len() as int),
                rt@ == r0.take(rt.len() as int),
                vs@ == v0.take(vs.len() as int),
                backwards.len() + vs.len() == n,
                forall|k: int|
                    0 <= k < backwards.len() ==> #[trigger] backwards@[k]@ == (Tree {
                        value: v0[n - 1 - k],
                        children: seq![l0[n - 1 - k]@, r0[n - 1 - k]@],
                    }),
            decreases vs.len(),
        {
            let a = l.pop().unwrap();
            let b = rt.pop().unwrap();
            let v = vs.pop().unwrap();
            proof {
                tree::lemma_take_step(l0, l.len() as int);
                tree::lemma_take_step(r0, rt.len() as int);
                tree::lemma_take_step(v0, vs.len() as int);
            }
            let ghost av = a@;
            let ghost bv = b@;
            let mut pair: Vec<Pattern<V>> = Vec::new();
            pair.push(a);
            pair.push(b);
            let p = Pattern::pattern(v, pair);
            proof {
                assert(patterns_forest(pair@) =~= seq![av, bv]);
            }
            backwards.push(p);
        }
        let r = reversed(backwards);
        proof {
            assert forall|i: int| 0 <= i < r.len() implies #[trigger] r@[i]@ == (Tree {
                value: values@[i],
                children: seq![left@[i]@, right@[i]@],
            }) by {
                assert(r@[i] == backwards@[n - 1 - i]);
            }
        }
        r
    }

    /// Pairs up `left` and `right` position by position (as far as the shorter goes),
    /// making a pattern of each pair whose value `value_fn` computes from the two.
    pub fn zip_with<F>(left: Vec<Pattern<V>>, right: Vec<Pattern<V>>, value_fn: F) -> (r: Vec<
        Pattern<V>,
    >)
        where
            F: Fn(&Pattern<V>, &Pattern<V>) -> V,
        requires
            forall|a: &Pattern<V>, b: &Pattern<V>| value_fn.requires((a, b)),
        ensures
            r.len() == vstd::math::min(left.len() as int, right.len() as int),
            forall|i: int|
                #![trigger r@[i]]
                0 <= i < r.len() ==> {
                    &&& r@[i]@.children == seq![left@[i]@, right@[i]@]
                    &&& value_fn.ensures((&left@[i], &right@[i]), r@[i].value)
                },
    {
        let mut n = left.len();
        if right.len() < n {
            n = right.len();
        }
        let mut l = left;
        let mut rt = right;
        l.truncate(n);
        rt.truncate(n);
        let ghost l0 = l@;
        let ghost r0 = rt@;
        let mut backwards: Vec<Pattern<V>> = Vec::new();
        while rt.len() > 0
            invariant
                l.len() == rt.len(),
                l0.len() == n,
                r0.len() == n,
                l@ == l0.take(l.len() as int),
                rt@ == r0.take(rt.len() as int),
                backwards.len() + rt.len() == n,
                forall|a: &Pattern<V>, b: &Pattern<V>| value_fn.requires((a, b)),
                forall|k: int|
                    0 <= k < backwards.len() ==> {
                        &&& #[trigger] backwards@[k]@.children == seq![l0[n - 1 - k]@, r0[n - 1 - k]@]
                        &&& value_fn.ensures((&l0[n - 1 - k], &r0[n - 1 - k]), backwards@[k].value)
                    },
            decreases rt.len(),
        {
            let a = l.pop().unwrap();
            let b = rt.pop().unwrap();
            proof {
                tree::lemma_take_step(l0, l.len() as int);
                tree::lemma_take_step(r0, rt.len() as int);
            }
            let v = value_fn(&a, &b);
            let ghost av = a@;
            let ghost bv = b@;
            let mut pair: Vec<Pattern<V>> = Vec::new();
            pair.push(a);
            pair.push(b);
            let p = Pattern::pattern(v, pair);
            proof {
                assert(patterns_forest(pair@) =~= seq![av, bv]);
            }
            backwards.push(p);
        }
        let r = reversed(backwards);
        proof {
            assert forall|i: int| #![trigger r@[i]] 0 <= i < r.len() implies {
                &&& r@[i]@.children == seq![left@[i]@, right@[i]@]
                &&& value_fn.ensures((&left@[i], &right@[i]), r@[i].value)
            } by {
                assert(r@[i] == backwards@[n - 1 - i]);
                assert(l0[i] == left@[i]);
                assert(r0[i] == right@[i]);
            }
        }
        r
    }
}

impl<V: Default> Default for Pattern<V> {
    /// The atomic pattern of the default value.
    fn default() -> (r: Self)
        ensures
            r.elements@.len() == 0,
            r@ == tree::leaf(r.value),
            call_ensures(V::default, (), r.value),
    {
        Pattern::point(V::default())
    }
}

} // verus!
