use vstd::prelude::*;

use crate::pattern::{lemma_pattern_view, Pattern};
use crate::tree::{self, Tree};

verus! {

/// `b` has the shape of `a`, and `f` returned `Some` of each value of `b` on the
/// corresponding value of `a`.
pub open spec fn option_traversed<V, W, F: Fn(&V) -> Option<W>>(f: F, a: Tree<V>, b: Tree<W>) -> bool
    decreases a,
{
    &&& f.ensures((&a.value,), Some(b.value))
    &&& a.children.len() == b.children.len()
    &&& forall|i: int|
        0 <= i < a.children.len() ==> option_traversed(f, #[trigger] a.children[i], b.children[i])
}

/// `b` has the shape of `a`, and `f` returned `Ok` of each value of `b` on the
/// corresponding value of `a`.
pub open spec fn result_traversed<V, W, E, F: Fn(&V) -> Result<W, E>>(f: F, a: Tree<V>, b: Tree<W>) -> bool
    decreases a,
{
    &&& f.ensures((&a.value,), Ok(b.value))
    &&& a.children.len() == b.children.len()
    &&& forall|i: int|
        0 <= i < a.children.len() ==> result_traversed(f, #[trigger] a.children[i], b.children[i])
}

/// `f` returned `Ok(ws[j])` on each member `s[j]`.
pub open spec fn ok_results<V, W, E, F: Fn(&V) -> Result<W, E>>(f: F, s: Seq<V>, ws: Seq<W>) -> bool {
    &&& ws.len() == s.len()
    &&& forall|j: int| 0 <= j < s.len() ==> #[trigger] f.ensures((&s[j],), Ok(ws[j]))
}

/// `f` returned `Ok` on every member of `s`.
pub open spec fn all_ok<V, W, E, F: Fn(&V) -> Result<W, E>>(f: F, s: Seq<V>) -> bool {
    exists|ws: Seq<W>| ok_results(f, s, ws)
}

/// `e` is what `f` returned on the first member of `s` on which it returned an error.
pub open spec fn first_error<V, W, E, F: Fn(&V) -> Result<W, E>>(f: F, s: Seq<V>, e: E) -> bool {
    exists|k: int|
        #![trigger s[k]]
        0 <= k < s.len() && f.ensures((&s[k],), Err(e)) && all_ok(f, s.take(k))
}

/// A traversal of a tree yields `Ok` of the result's values on its pre-order values.
pub proof fn lemma_result_traversed_ok<V, W, E, F: Fn(&V) -> Result<W, E>>(f: F, a: Tree<V>, b: Tree<W>)
    requires
        result_traversed(f, a, b),
    ensures
        ok_results(f, tree::tree_values(a), tree::tree_values(b)),
    decreases a,
{
    lemma_forest_ok(f, a.children, b.children);
    let ha = seq![a.value];
    let hb = seq![b.value];
    assert(ok_results(f, ha, hb));
    lemma_ok_results_add(f, ha, hb, tree::forest_values(a.children), tree::forest_values(b.children));
}

/// A pairwise traversal of a forest yields `Ok` on all of its pre-order values.
pub proof fn lemma_forest_ok<V, W, E, F: Fn(&V) -> Result<W, E>>(f: F, a: Seq<Tree<V>>, b: Seq<Tree<W>>)
    requires
        a.len() == b.len(),
        forall|i: int| 0 <= i < a.len() ==> result_traversed(f, #[trigger] a[i], b[i]),
    ensures
        ok_results(f, tree::forest_values(a), tree::forest_values(b)),
    decreases a,
{
    if a.len() > 0 {
        lemma_forest_ok(f, a.drop_last(), b.drop_last());
        lemma_result_traversed_ok(f, a.last(), b.last());
        lemma_ok_results_add(
            f,
            tree::forest_values(a.drop_last()),
            tree::forest_values(b.drop_last()),
            tree::tree_values(a.last()),
            tree::tree_values(b.last()),
        );
    } else {
        assert(ok_results(f, tree::forest_values(a), tree::forest_values(b)));
    }
}

/// `ok_results` of concatenations.
pub proof fn lemma_ok_results_add<V, W, E, F: Fn(&V) -> Result<W, E>>(
    f: F,
    a: Seq<V>,
    wa: Seq<W>,
    b: Seq<V>,
    wb: Seq<W>,
)
    requires
        ok_results(f, a, wa),
        ok_results(f, b, wb),
    ensures
        ok_results(f, a + b, wa + wb),
{
    assert forall|j: int| 0 <= j < (a + b).len() implies #[trigger] f.ensures((&(a + b)[j],), Ok((wa + wb)[j])) by {
        if j < a.len() {
            assert((a + b)[j] == a[j]);
            assert((wa + wb)[j] == wa[j]);
        } else {
            assert((a + b)[j] == b[j - a.len()]);
            assert((wa + wb)[j] == wb[j - a.len()]);
        }
    }
}

/// `all_ok` of a concatenation.
pub proof fn lemma_all_ok_add<V, W, E, F: Fn(&V) -> Result<W, E>>(f: F, a: Seq<V>, b: Seq<V>)
    requires
        all_ok(f, a),
        all_ok(f, b),
    ensures
        all_ok(f, a + b),
{
    let wa = choose|ws: Seq<W>| ok_results(f, a, ws);
    let wb = choose|ws: Seq<W>| ok_results(f, b, ws);
    lemma_ok_results_add(f, a, wa, b, wb);
}

impl<V> Pattern<V> {
    /// Applies `f` to every value (pre-order); `None` as soon as `f` returns `None`,
    /// otherwise the pattern of the results.
    pub fn traverse_option<W, F>(&self, f: F) -> (r: Option<Pattern<W>>)
        where
            F: Fn(&V) -> Option<W>,
        requires
            forall|v: &V| f.requires((v,)),
        ensures
            r matches Some(q) ==> option_traversed(f, self@, q@),
            r is None ==> exists|v: &V| tree::tree_values(self@).contains(*v) && #[trigger] f.ensures((v,), None::<W>),
    {
        self.traverse_option_with(&f)
    }

    fn traverse_option_with<W, F>(&self, f: &F) -> (r: Option<Pattern<W>>)
        where
            F: Fn(&V) -> Option<W>,
        requires
            forall|v: &V| f.requires((v,)),
        ensures
            r matches Some(q) ==> option_traversed(*f, self@, q@),
            r is None ==> exists|v: &V| tree::tree_values(self@).contains(*v) && #[trigger] f.ensures((v,), None::<W>),
        decreases self,
    {
        proof {
            lemma_pattern_view(*self);
            tree::lemma_tree_values_contains(self@, self.value);
        }
        let new_value = match f(&self.value) {
            Some(w) => w,
            None => {
                return None;
            },
        };
        let mut elements: Vec<Pattern<W>> = Vec::new();
        let mut i: usize = 0;
        while i < self.elements.len()
            invariant
                i <= self.elements.len(),
                elements.len() == i,
                self@.children.len() == self.elements.len(),
                forall|k: int| 0 <= k < self.elements.len() ==> #[trigger] self@.children[k] == self.elements@[k]@,
                forall|v: &V| f.requires((v,)),
                forall|k: int| 0 <= k < i ==> option_traversed(*f, #[trigger] self.elements@[k]@, elements@[k]@),
            decreases self.elements.len() - i,
        {
            match self.elements[i].traverse_option_with(f) {
                Some(q) => {
                    elements.push(q);
                },
                None => {
                    proof {
                        let v = choose|v: &V| tree::tree_values(self.elements@[i as int]@).contains(*v) && #[trigger] f.ensures((v,), None::<W>);
                        assert(tree::tree_values(self@.children[i as int]).contains(*v));
                        tree::lemma_tree_values_contains(self@, *v);
                    }
                    return None;
                },
            }
            i = i + 1;
        }
        let r = Pattern { value: new_value, elements };
        proof {
            lemma_pattern_view(r);
            assert forall|k: int| 0 <= k < self@.children.len() implies option_traversed(*f, #[trigger] self@.children[k], r@.children[k]) by {
                assert(r@.children[k] == r.elements@[k]@);
            }
        }
        Some(r)
    }

    /// Applies `f` to every value (pre-order); the first error as soon as `f` returns
    /// one, otherwise the pattern of the results.
    pub fn traverse_result<W, E, F>(&self, f: F) -> (r: Result<Pattern<W>, E>)
        where
            F: Fn(&V) -> Result<W, E>,
        requires
            forall|v: &V| f.requires((v,)),
        ensures
            r matches Ok(q) ==> result_traversed(f, self@, q@),
            r matches Err(e) ==> first_error(f, tree::tree_values(self@), e),
    {
        self.traverse_result_with(&f)
    }

    fn traverse_result_with<W, E, F>(&self, f: &F) -> (r: Result<Pattern<W>, E>)
        where
            F: Fn(&V) -> Result<W, E>,
        requires
            forall|v: &V| f.requires((v,)),
        ensures
            r matches Ok(q) ==> result_traversed(*f, self@, q@),
            r matches Err(e) ==> first_error(*f, tree::tree_values(self@), e),
        decreases self,
    {
        proof {
            lemma_pattern_view(*self);
        }
        let ghost vals = tree::tree_values(self@);
        let new_value = match f(&self.value) {
            Ok(w) => w,
            Err(e) => {
                proof {
                    assert(vals[0] == self.value);
                    assert(vals.take(0) =~= Seq::<V>::empty());
                    assert(ok_results(*f, vals.take(0), Seq::<W>::empty()));
                }
                return Err(e);
            },
        };
        proof {
            let pre = seq![self.value] + tree::forest_values(self@.children.take(0));
            assert(pre =~= seq![self.value]);
            assert(ok_results(*f, pre, seq![new_value]));
        }
        let mut elements: Vec<Pattern<W>> = Vec::new();
        let mut i: usize = 0;
        while i < self.elements.len()
            invariant
                i <= self.elements.len(),
                elements.len() == i,
                vals == tree::tree_values(self@),
                self@.children.len() == self.elements.len(),
                forall|k: int| 0 <= k < self.elements.len() ==> #[trigger] self@.children[k] == self.elements@[k]@,
                forall|v: &V| f.requires((v,)),
                f.ensures((&self.value,), Ok(new_value)),
                all_ok(*f, seq![self.value] + tree::forest_values(self@.children.take(i as int))),
                forall|k: int| 0 <= k < i ==> result_traversed(*f, #[trigger] self.elements@[k]@, elements@[k]@),
            decreases self.elements.len() - i,
        {
            let ghost prefix = seq![self.value] + tree::forest_values(self@.children.take(i as int));
            let ghost sub = tree::tree_values(self@.children[i as int]);
            proof {
                tree::lemma_values_split(self@, i as int);
            }
            match self.elements[i].traverse_result_with(f) {
                Ok(q) => {
                    proof {
                        lemma_result_traversed_ok(*f, self@.children[i as int], q@);
                        lemma_all_ok_add(*f, prefix, sub);
                        assert(prefix + sub =~= seq![self.value] + tree::forest_values(self@.children.take(i + 1)));
                    }
                    elements.push(q);
                },
                Err(e) => {
                    proof {
                        let k2 = choose|k: int| #![trigger sub[k]] 0 <= k < sub.len() && f.ensures((&sub[k],), Err(e)) && all_ok(*f, sub.take(k));
                        let k = prefix.len() + k2;
                        let rest = tree::forest_values(self@.children.skip(i + 1));
                        assert(vals == prefix + sub + rest);
                        assert(vals[k] == sub[k2]);
                        assert(vals.take(k) =~= prefix + sub.take(k2));
                        lemma_all_ok_add(*f, prefix, sub.take(k2));
                    }
                    return Err(e);
                },
            }
            i = i + 1;
        }
        let r = Pattern { value: new_value, elements };
        proof {
            lemma_pattern_view(r);
            assert forall|k: int| 0 <= k < self@.children.len() implies result_traversed(*f, #[trigger] self@.children[k], r@.children[k]) by {
                assert(r@.children[k] == r.elements@[k]@);
            }
        }
        Ok(r)
    }
}


/// `b` has the shape of `a`; every value of `a` is `Some` of something that the
/// corresponding value of `b` is a clone of.
pub open spec fn option_sequenced<V: Clone>(a: Tree<Option<V>>, b: Tree<V>) -> bool
    decreases a,
{
    &&& a.value matches Some(x) && cloned::<V>(x, b.value)
    &&& a.children.len() == b.children.len()
    &&& forall|i: int|
        0 <= i < a.children.len() ==> option_sequenced(#[trigger] a.children[i], b.children[i])
}

/// `b` has the shape of `a`; every value of `a` is `Ok` of something that the
/// corresponding value of `b` is a clone of.
pub open spec fn result_sequenced<V: Clone, E>(a: Tree<Result<V, E>>, b: Tree<V>) -> bool
    decreases a,
{
    &&& a.value matches Ok(x) && cloned::<V>(x, b.value)
    &&& a.children.len() == b.children.len()
    &&& forall|i: int|
        0 <= i < a.children.len() ==> result_sequenced(#[trigger] a.children[i], b.children[i])
}

/// `e` is a clone of the error held by the first `Err` among `s`.
pub open spec fn first_err_cloned<V, E: Clone>(s: Seq<Result<V, E>>, e: E) -> bool {
    exists|k: int|
        #![trigger s[k]]
        0 <= k < s.len() && (s[k] matches Err(e0) && cloned::<E>(e0, e)) && forall|j: int|
            0 <= j < k ==> (#[trigger] s[j]) is Ok
}

/// A traversal by a cloning function is a sequencing.
pub proof fn lemma_option_traversed_sequenced<V: Clone, F: Fn(&Option<V>) -> Option<V>>(
    f: F,
    a: Tree<Option<V>>,
    b: Tree<V>,
)
    requires
        option_traversed(f, a, b),
        forall|x: &Option<V>, y: V| #[trigger] f.ensures((x,), Some(y)) ==> (*x matches Some(z) && cloned::<V>(z, y)),
    ensures
        option_sequenced(a, b),
    decreases a,
{
    assert forall|i: int| 0 <= i < a.children.len() implies option_sequenced(#[trigger] a.children[i], b.children[i]) by {
        lemma_option_traversed_sequenced(f, a.children[i], b.children[i]);
    }
}

/// A traversal by a cloning function is a sequencing.
pub proof fn lemma_result_traversed_sequenced<V: Clone, E, F: Fn(&Result<V, E>) -> Result<V, E>>(
    f: F,
    a: Tree<Result<V, E>>,
    b: Tree<V>,
)
    requires
        result_traversed(f, a, b),
        forall|x: &Result<V, E>, y: V| #[trigger] f.ensures((x,), Ok(y)) ==> (*x matches Ok(z) && cloned::<V>(z, y)),
    ensures
        result_sequenced(a, b),
    decreases a,
{
    assert forall|i: int| 0 <= i < a.children.len() implies result_sequenced(#[trigger] a.children[i], b.children[i]) by {
        lemma_result_traversed_sequenced(f, a.children[i], b.children[i]);
    }
}

impl<V: Clone> Pattern<Option<V>> {
    /// `Some` of the pattern of the held values when every value is `Some`; `None`
    /// otherwise.
    pub fn sequence_option(self) -> (r: Option<Pattern<V>>)
        ensures
            r matches Some(q) ==> option_sequenced(self@, q@),
            r is None ==> tree::tree_values(self@).contains(None),
    {
        let take = |opt: &Option<V>| -> (r: Option<V>)
            ensures
                r is Some <==> *opt is Some,
                r matches Some(y) ==> (*opt matches Some(z) && cloned::<V>(z, y)),
            {
                match opt {
                    Some(x) => Some(x.clone()),
                    None => None,
                }
            };
        let r = self.traverse_option(take);
        proof {
            if r is Some {
                lemma_option_traversed_sequenced(take, self@, r->0@);
            } else {
                let v = choose|v: &Option<V>| tree::tree_values(self@).contains(*v) && #[trigger] take.ensures((v,), None::<V>);
                assert(*v is None);
            }
        }
        r
    }
}

impl<V: Clone, E: Clone> Pattern<Result<V, E>> {
    /// `Ok` of the pattern of the held values when every value is `Ok`; otherwise the
    /// first error in pre-order.
    pub fn sequence_result(self) -> (r: Result<Pattern<V>, E>)
        ensures
            r matches Ok(q) ==> result_sequenced(self@, q@),
            r matches Err(e) ==> first_err_cloned(tree::tree_values(self@), e),
    {
        let copy = |res: &Result<V, E>| -> (r: Result<V, E>)
            ensures
                r is Ok <==> *res is Ok,
                r matches Ok(y) ==> (*res matches Ok(z) && cloned::<V>(z, y)),
                r matches Err(y) ==> (*res matches Err(z) && cloned::<E>(z, y)),
            {
                match res {
                    Ok(x) => Ok(x.clone()),
                    Err(e) => Err(e.clone()),
                }
            };
        let r = self.traverse_result(copy);
        proof {
            if r is Ok {
                lemma_result_traversed_sequenced(copy, self@, r->Ok_0@);
            } else {
                let e = r->Err_0;
                {
                    let vals = tree::tree_values(self@);
                    let k = choose|k: int| #![trigger vals[k]] 0 <= k < vals.len() && copy.ensures((&vals[k],), Err(e)) && all_ok(copy, vals.take(k));
                    let ws = choose|ws: Seq<V>| ok_results(copy, vals.take(k), ws);
                    assert forall|j: int| 0 <= j < k implies (#[trigger] vals[j]) is Ok by {
                        assert(vals.take(k)[j] == vals[j]);
                        assert(copy.ensures((&vals.take(k)[j],), Ok(ws[j])));
                    }
                }
            }
        }
        r
    }
}


/// `f` returned `os[j]` on each member `s[j]`.
pub open spec fn outcomes<V, W, E, F: Fn(&V) -> Result<W, E>>(
    f: F,
    s: Seq<V>,
    os: Seq<Result<W, E>>,
) -> bool {
    &&& os.len() == s.len()
    &&& forall|j: int| 0 <= j < s.len() ==> #[trigger] f.ensures((&s[j],), os[j])
}

/// The values held by the `Ok` outcomes, in order.
pub open spec fn oks_of<W, E>(os: Seq<Result<W, E>>) -> Seq<W>
    decreases os.len(),
{
    if os.len() == 0 {
        Seq::empty()
    } else {
        oks_of(os.drop_last()) + match os.last() {
            Ok(w) => seq![w],
            Err(_) => Seq::empty(),
        }
    }
}

/// The errors held by the `Err` outcomes, in order.
pub open spec fn errs_of<W, E>(os: Seq<Result<W, E>>) -> Seq<E>
    decreases os.len(),
{
    if os.len() == 0 {
        Seq::empty()
    } else {
        errs_of(os.drop_last()) + match os.last() {
            Ok(_) => Seq::empty(),
            Err(e) => seq![e],
        }
    }
}

/// The last `n` members of `s`, last first (the order in which popping yields them).
pub open spec fn pops<W>(s: Seq<W>, n: int) -> Seq<W> {
    Seq::new(n as nat, |i: int| s[s.len() - 1 - i])
}

pub proof fn lemma_oks_errs_add<W, E>(a: Seq<Result<W, E>>, b: Seq<Result<W, E>>)
    ensures
        oks_of(a + b) == oks_of(a) + oks_of(b),
        errs_of(a + b) == errs_of(a) + errs_of(b),
    decreases b.len(),
{
    if b.len() == 0 {
        assert(a + b =~= a);
        assert(oks_of(a) + oks_of(b) =~= oks_of(a));
        assert(errs_of(a) + errs_of(b) =~= errs_of(a));
    } else {
        lemma_oks_errs_add(a, b.drop_last());
        assert((a + b).drop_last() =~= a + b.drop_last());
        assert((a + b).last() == b.last());
        assert(oks_of(a + b) =~= oks_of(a) + oks_of(b));
        assert(errs_of(a + b) =~= errs_of(a) + errs_of(b));
    }
}

/// When there is no error, every outcome is an `Ok` and there are as many values.
pub proof fn lemma_no_errs<W, E>(os: Seq<Result<W, E>>)
    requires
        errs_of(os).len() == 0,
    ensures
        oks_of(os).len() == os.len(),
    decreases os.len(),
{
    if os.len() > 0 {
        lemma_oks_errs_add(os.drop_last(), seq![os.last()]);
        assert(os.drop_last() + seq![os.last()] =~= os);
        lemma_no_errs(os.drop_last());
    }
}

pub proof fn lemma_outcomes_add<V, W, E, F: Fn(&V) -> Result<W, E>>(
    f: F,
    a: Seq<V>,
    oa: Seq<Result<W, E>>,
    b: Seq<V>,
    ob: Seq<Result<W, E>>,
)
    requires
        outcomes(f, a, oa),
        outcomes(f, b, ob),
    ensures
        outcomes(f, a + b, oa + ob),
{
    assert forall|j: int| 0 <= j < (a + b).len() implies #[trigger] f.ensures((&(a + b)[j],), (oa + ob)[j]) by {
        if j < a.len() {
            assert((a + b)[j] == a[j]);
            assert((oa + ob)[j] == oa[j]);
        } else {
            assert((a + b)[j] == b[j - a.len()]);
            assert((oa + ob)[j] == ob[j - a.len()]);
        }
    }
}

impl<V> Pattern<V> {
    /// Applies `f` to every value (pre-order, without stopping): all errors in order when
    /// there is any, otherwise the pattern of the results.
    pub fn validate_all<W, E, F>(&self, f: F) -> (r: Result<Pattern<W>, Vec<E>>)
        where
            F: Fn(&V) -> Result<W, E>,
        requires
            forall|v: &V| f.requires((v,)),
        ensures
            exists|os: Seq<Result<W, E>>|
                {
                    &&& outcomes(f, tree::tree_values(self@), os)
                    &&& match r {
                        Ok(q) => errs_of(os).len() == 0 && tree::same_shape(self@, q@)
                            && tree::tree_values(q@) == oks_of(os),
                        Err(es) => errs_of(os).len() > 0 && es@ == errs_of(os),
                    }
                },
    {
        self.validate_all_with(&f)
    }

    fn validate_all_with<W, E, F>(&self, f: &F) -> (r: Result<Pattern<W>, Vec<E>>)
        where
            F: Fn(&V) -> Result<W, E>,
        requires
            forall|v: &V| f.requires((v,)),
        ensures
            exists|os: Seq<Result<W, E>>|
                {
                    &&& outcomes(*f, tree::tree_values(self@), os)
                    &&& match r {
                        Ok(q) => errs_of(os).len() == 0 && tree::same_shape(self@, q@)
                            && tree::tree_values(q@) == oks_of(os),
                        Err(es) => errs_of(os).len() > 0 && es@ == errs_of(os),
                    }
                },
    {
        let mut successes: Vec<W> = Vec::new();
        let mut errors: Vec<E> = Vec::new();
        let os = collect_results(self, f, &mut successes, &mut errors);
        proof {
            assert(successes@ =~= oks_of(os@));
            assert(errors@ =~= errs_of(os@));
        }
        if errors.len() > 0 {
            return Err(errors);
        }
        proof {
            lemma_no_errs(os@);
            tree::lemma_values_len(self@);
        }
        let ghost oks = successes@;
        let mut stack: Vec<W> = Vec::new();
        while successes.len() > 0
            invariant
                successes@ == oks.take(successes.len() as int),
                successes.len() <= oks.len(),
                stack.len() + successes.len() == oks.len(),
                forall|k: int| 0 <= k < stack.len() ==> #[trigger] stack@[k] == oks[oks.len() - 1 - k],
            decreases successes.len(),
        {
            let w = successes.pop().unwrap();
            proof {
                tree::lemma_take_step(oks, successes.len() as int);
            }
            stack.push(w);
        }
        proof {
            assert(pops(stack@, oks.len() as int) =~= oks);
        }
        let q = rebuild(self, &mut stack);
        Ok(q)
    }
}

/// Applies `f` to every value of `p` in pre-order, appending successes and errors.
fn collect_results<V, W, E, F>(
    p: &Pattern<V>,
    f: &F,
    successes: &mut Vec<W>,
    errors: &mut Vec<E>,
) -> (os: Ghost<Seq<Result<W, E>>>)
    where
        F: Fn(&V) -> Result<W, E>,
    requires
        forall|v: &V| f.requires((v,)),
    ensures
        outcomes(*f, tree::tree_values(p@), os@),
        final(successes)@ == old(successes)@ + oks_of(os@),
        final(errors)@ == old(errors)@ + errs_of(os@),
    decreases p,
{
    proof {
        lemma_pattern_view(*p);
    }
    let ghost s0 = successes@;
    let ghost e0 = errors@;
    let o = f(&p.value);
    let ghost o_ghost = o;
    match o {
        Ok(w) => {
            successes.push(w);
        },
        Err(e) => {
            errors.push(e);
        },
    }
    let ghost mut acc: Seq<Result<W, E>> = seq![o_ghost];
    proof {
        assert(seq![o_ghost].drop_last() =~= Seq::<Result<W, E>>::empty());
        assert(seq![o_ghost].last() == o_ghost);
        assert(oks_of(Seq::<Result<W, E>>::empty()) =~= Seq::<W>::empty());
        assert(errs_of(Seq::<Result<W, E>>::empty()) =~= Seq::<E>::empty());
        if o_ghost is Ok {
            assert(oks_of(acc) =~= seq![o_ghost->Ok_0]);
            assert(errs_of(acc) =~= Seq::<E>::empty());
        } else {
            assert(oks_of(acc) =~= Seq::<W>::empty());
            assert(errs_of(acc) =~= seq![o_ghost->Err_0]);
        }
        assert(successes@ =~= s0 + oks_of(acc));
        assert(errors@ =~= e0 + errs_of(acc));
        assert(seq![p.value] + tree::forest_values(p@.children.take(0)) =~= seq![p.value]);
    }
    let mut i: usize = 0;
    while i < p.elements.len()
        invariant
            i <= p.elements.len(),
            p@.children.len() == p.elements.len(),
            forall|k: int| 0 <= k < p.elements.len() ==> #[trigger] p@.children[k] == p.elements@[k]@,
            forall|v: &V| f.requires((v,)),
            outcomes(*f, seq![p.value] + tree::forest_values(p@.children.take(i as int)), acc),
            successes@ == s0 + oks_of(acc),
            errors@ == e0 + errs_of(acc),
        decreases p.elements.len() - i,
    {
        let ghost sb = successes@;
        let ghost eb = errors@;
        let child_os = collect_results(&p.elements[i], f, successes, errors);
        proof {
            let pre = seq![p.value] + tree::forest_values(p@.children.take(i as int));
            lemma_outcomes_add(*f, pre, acc, tree::tree_values(p@.children[i as int]), child_os@);
            lemma_oks_errs_add(acc, child_os@);
            tree::lemma_forest_step(p@.children, i as int);
            assert(pre + tree::tree_values(p@.children[i as int]) =~= seq![p.value] + tree::forest_values(p@.children.take(i + 1)));
            acc = acc + child_os@;
            assert(successes@ =~= s0 + oks_of(acc));
            assert(errors@ =~= e0 + errs_of(acc));
        }
        i = i + 1;
    }
    proof {
        tree::lemma_take_full(p@.children);
    }
    Ghost(acc)
}

/// Rebuilds a pattern of the shape of `p`, taking its values by popping `stack`.
fn rebuild<V, W>(p: &Pattern<V>, stack: &mut Vec<W>) -> (r: Pattern<W>)
    requires
        old(stack)@.len() >= tree::tree_size(p@),
    ensures
        final(stack)@ == old(stack)@.take(old(stack)@.len() - tree::tree_size(p@)),
        tree::same_shape(p@, r@),
        tree::tree_values(r@) == pops(old(stack)@, tree::tree_size(p@) as int),
    decreases p,
{
    proof {
        lemma_pattern_view(*p);
    }
    let ghost s0 = stack@;
    let value = stack.pop().unwrap();
    let mut elements: Vec<Pattern<W>> = Vec::new();
    let mut i: usize = 0;
    proof {
        assert(pops(s0, 1) =~= seq![value]);
        assert(seq![value] + tree::forest_values(Seq::<Tree<W>>::empty()) =~= seq![value]);
        assert(patterns_forest_view(elements@) =~= Seq::<Tree<W>>::empty());
    }
    while i < p.elements.len()
        invariant
            i <= p.elements.len(),
            elements.len() == i,
            p@.children.len() == p.elements.len(),
            forall|k: int| 0 <= k < p.elements.len() ==> #[trigger] p@.children[k] == p.elements@[k]@,
            s0.len() >= tree::tree_size(p@),
            tree::tree_size(p@) == 1 + tree::forest_size(p@.children),
            stack@ == s0.take(s0.len() - 1 - tree::forest_size(p@.children.take(i as int))),
            forall|k: int| 0 <= k < i ==> tree::same_shape(#[trigger] p@.children[k], elements@[k]@),
            seq![value] + tree::forest_values(patterns_forest_view(elements@)) == pops(s0, (1 + tree::forest_size(p@.children.take(i as int))) as int),
        decreases p.elements.len() - i,
    {
        let ghost sb = stack@;
        proof {
            tree::lemma_forest_size_prefix(p@.children, i as int);
            tree::lemma_forest_step(p@.children, i as int);
        }
        let e = rebuild(&p.elements[i], stack);
        let ghost n = tree::tree_size(p@.children[i as int]) as int;
        let ghost before = patterns_forest_view(elements@);
        elements.push(e);
        proof {
            let m: int = (1 + tree::forest_size(p@.children.take(i as int))) as int;
            assert(sb.take(sb.len() - n) =~= s0.take(s0.len() - (m + n)));
            assert(patterns_forest_view(elements@) =~= before.push(e@));
            assert(before.push(e@).drop_last() =~= before);
            assert(pops(sb, n) =~= pops(s0, m + n).skip(m));
            assert(pops(s0, m + n) =~= pops(s0, m) + pops(sb, n));
        }
        i = i + 1;
    }
    let r = Pattern { value, elements };
    proof {
        lemma_pattern_view(r);
        tree::lemma_take_full(p@.children);
        assert(r@.children =~= patterns_forest_view(r.elements@));
    }
    r
}

/// The views of a sequence of patterns.
pub open spec fn patterns_forest_view<W>(s: Seq<Pattern<W>>) -> Seq<Tree<W>> {
    Seq::new(s.len(), |i: int| s[i]@)
}

} // verus!
