use vstd::prelude::*;
use vstd::std_specs::cmp::PartialEqSpec;

use crate::reconcile::{LabelMerge, PropertyMerge};

verus! {

/// The texts of a list of labels, as a set.
pub open spec fn label_set(s: Seq<String>) -> Set<Seq<char>> {
    s.map_values(|x: String| x@).to_set()
}

/// The texts of a list of labels.
pub open spec fn label_texts(s: Seq<String>) -> Seq<Seq<char>> {
    s.map_values(|x: String| x@)
}

/// Properties as a map from name to value, a later entry of a name replacing an
/// earlier one.
pub open spec fn property_map<P>(s: Seq<(String, P)>) -> Map<Seq<char>, P>
    decreases s.len(),
{
    if s.len() == 0 {
        Map::empty()
    } else {
        property_map(s.drop_last()).insert(s.last().0@, s.last().1)
    }
}

/// No two properties share a name.
pub open spec fn names_distinct<P>(s: Seq<(String, P)>) -> bool {
    forall|i: int, j: int| 0 <= i < j < s.len() ==> (#[trigger] s[i]).0@ != (#[trigger] s[j]).0@
}

/// What merging label sets with `strategy` gives.
pub open spec fn merged_label_set(strategy: LabelMerge, l1: Set<Seq<char>>, l2: Set<Seq<char>>) -> Set<Seq<char>> {
    match strategy {
        LabelMerge::UnionLabels => l1.union(l2),
        LabelMerge::IntersectLabels => l1.intersect(l2),
        LabelMerge::ReplaceLabels => l2,
    }
}

/// Whether `s` holds a label with the text of `x`.
fn holds_label(s: &Vec<String>, x: &String) -> (r: bool)
    ensures
        r == label_texts(s@).contains(x@),
{
    let mut i: usize = 0;
    while i < s.len()
        invariant
            i <= s.len(),
            forall|k: int| 0 <= k < i ==> s@[k]@ != x@,
        decreases s.len() - i,
    {
        if s[i] == *x {
            proof {
                assert(label_texts(s@)[i as int] == x@);
            }
            return true;
        }
        i = i + 1;
    }
    proof {
        if label_texts(s@).contains(x@) {
            let j = choose|j: int| 0 <= j < label_texts(s@).len() && label_texts(s@)[j] == x@;
            assert(s@[j]@ == x@);
        }
    }
    false
}

/// A copy of a label.
fn copy_label(x: &String) -> (r: String)
    ensures
        r@ == x@,
{
    x.clone()
}

/// Adding a label adds its text.
proof fn lemma_label_set_push(s: Seq<String>, x: String)
    ensures
        label_set(s.push(x)) == label_set(s).insert(x@),
        label_texts(s.push(x)) == label_texts(s).push(x@),
{
    assert(label_texts(s.push(x)) =~= label_texts(s).push(x@));
    assert(label_set(s.push(x)) =~= label_set(s).insert(x@)) by {
        assert forall|t: Seq<char>| label_set(s.push(x)).contains(t) <==> label_set(s).insert(x@).contains(t) by {
            if label_set(s.push(x)).contains(t) {
                let j = choose|j: int| 0 <= j < label_texts(s.push(x)).len() && label_texts(s.push(x))[j] == t;
                if j < s.len() {
                    assert(label_texts(s)[j] == t);
                }
            }
            if label_set(s).contains(t) {
                let j = choose|j: int| 0 <= j < label_texts(s).len() && label_texts(s)[j] == t;
                assert(label_texts(s.push(x))[j] == t);
            }
            if t == x@ {
                assert(label_texts(s.push(x))[s.len() as int] == t);
            }
        }
    }
}

/// Labels merged with `strategy`: the union, the intersection, or the second set; each
/// text once.
pub fn merge_labels(strategy: &LabelMerge, l1: &Vec<String>, l2: &Vec<String>) -> (r: Vec<String>)
    ensures
        label_set(r@) == merged_label_set(*strategy, label_set(l1@), label_set(l2@)),
        label_texts(r@).no_duplicates(),
{
    let mut r: Vec<String> = Vec::new();
    proof {
        assert(label_set(r@) =~= Set::<Seq<char>>::empty());
        assert(label_texts(r@) =~= Seq::<Seq<char>>::empty());
    }
    let take_first = match strategy {
        LabelMerge::ReplaceLabels => false,
        _ => true,
    };
    let mut i: usize = 0;
    while i < l1.len()
        invariant
            i <= l1.len(),
            label_texts(r@).no_duplicates(),
            take_first == !(*strategy is ReplaceLabels),
            forall|t: Seq<char>| #[trigger] label_set(r@).contains(t) <==> (take_first && label_texts(l1@).take(i as int).contains(t)
                && (*strategy is IntersectLabels ==> label_set(l2@).contains(t))),
        decreases l1.len() - i,
    {
        let x = &l1[i];
        let wanted = take_first && match strategy {
            LabelMerge::IntersectLabels => holds_label(l2, x),
            _ => true,
        };
        let ghost before = r@;
        if wanted && !holds_label(&r, x) {
            r.push(copy_label(x));
            proof {
                lemma_label_set_push(before, r@.last());
                assert(r@ == before.push(r@.last()));
            }
        }
        proof {
            assert(label_texts(l1@).take(i + 1) =~= label_texts(l1@).take(i as int).push(x@));
            assert forall|t: Seq<char>| #[trigger] label_set(r@).contains(t) <==> (take_first && label_texts(l1@).take(i + 1).contains(t)
                && (*strategy is IntersectLabels ==> label_set(l2@).contains(t))) by {
                crate::tree::lemma_contains_add(label_texts(l1@).take(i as int), seq![x@], t);
                assert(label_texts(l1@).take(i as int).push(x@) =~= label_texts(l1@).take(i as int) + seq![x@]);
                if seq![x@].contains(t) {
                    assert(t == x@);
                }
                assert(seq![x@][0] == x@);
                if label_texts(before).contains(t) {
                    let j = choose|j: int| 0 <= j < label_texts(before).len() && label_texts(before)[j] == t;
                    assert(label_set(before).contains(t));
                }
                if label_set(before).contains(t) {
                    let j = choose|j: int| 0 <= j < label_texts(before).len() && label_texts(before)[j] == t;
                    assert(label_texts(before).contains(t));
                }
                if *strategy is IntersectLabels && t == x@ && label_set(l2@).contains(t) {
                    assert(label_texts(l2@).contains(t));
                }
                if *strategy is IntersectLabels && t == x@ && label_texts(l2@).contains(t) {
                    assert(label_set(l2@).contains(t));
                }
            }
        }
        i = i + 1;
    }
    proof {
        assert(label_texts(l1@).take(l1.len() as int) =~= label_texts(l1@));
        assert(label_texts(l2@).take(0) =~= Seq::<Seq<char>>::empty());
    }
    let take_second = match strategy {
        LabelMerge::IntersectLabels => false,
        _ => true,
    };
    let mut j: usize = 0;
    while j < l2.len()
        invariant
            j <= l2.len(),
            label_texts(r@).no_duplicates(),
            take_first == !(*strategy is ReplaceLabels),
            take_second == !(*strategy is IntersectLabels),
            forall|t: Seq<char>| #[trigger] label_set(r@).contains(t) <==> ((take_first && label_texts(l1@).contains(t) && (
            *strategy is IntersectLabels ==> label_set(l2@).contains(t))) || (take_second && label_texts(l2@).take(j as int).contains(t))),
        decreases l2.len() - j,
    {
        let x = &l2[j];
        let ghost before = r@;
        if take_second && !holds_label(&r, x) {
            r.push(copy_label(x));
            proof {
                lemma_label_set_push(before, r@.last());
                assert(r@ == before.push(r@.last()));
            }
        }
        proof {
            assert(label_texts(l2@).take(j + 1) =~= label_texts(l2@).take(j as int).push(x@));
            assert forall|t: Seq<char>| #[trigger] label_set(r@).contains(t) <==> ((take_first && label_texts(l1@).contains(t) && (
            *strategy is IntersectLabels ==> label_set(l2@).contains(t))) || (take_second && label_texts(l2@).take(j + 1).contains(t))) by {
                crate::tree::lemma_contains_add(label_texts(l2@).take(j as int), seq![x@], t);
                assert(label_texts(l2@).take(j as int).push(x@) =~= label_texts(l2@).take(j as int) + seq![x@]);
                if seq![x@].contains(t) {
                    assert(t == x@);
                }
                assert(seq![x@][0] == x@);
                if label_texts(before).contains(t) {
                    assert(label_set(before).contains(t));
                }
                if label_set(before).contains(t) {
                    let k = choose|k: int| 0 <= k < label_texts(before).len() && label_texts(before)[k] == t;
                    assert(label_texts(before).contains(t));
                }
            }
        }
        j = j + 1;
    }
    proof {
        assert(label_texts(l1@).take(l1.len() as int) =~= label_texts(l1@));
        assert(label_texts(l2@).take(l2.len() as int) =~= label_texts(l2@));
        assert forall|t: Seq<char>| label_set(r@).contains(t) <==> merged_label_set(*strategy, label_set(l1@), label_set(l2@)).contains(t) by {
            assert(label_set(l1@).contains(t) <==> label_texts(l1@).contains(t));
            assert(label_set(l2@).contains(t) <==> label_texts(l2@).contains(t));
        }
        assert(label_set(r@) =~= merged_label_set(*strategy, label_set(l1@), label_set(l2@)));
    }
    r
}


/// A property map extended by the entries of `b`, later ones winning.
proof fn lemma_property_map_add<P>(a: Seq<(String, P)>, b: Seq<(String, P)>)
    ensures
        property_map(a + b) == property_map(a).union_prefer_right(property_map(b)),
    decreases b.len(),
{
    if b.len() == 0 {
        assert(a + b =~= a);
        assert(property_map(a).union_prefer_right(property_map(b)) =~= property_map(a));
    } else {
        lemma_property_map_add(a, b.drop_last());
        assert((a + b).drop_last() =~= a + b.drop_last());
        assert((a + b).last() == b.last());
        assert(property_map(a + b) =~= property_map(a).union_prefer_right(property_map(b)));
    }
}

/// Which names a property map holds.
proof fn lemma_property_map_dom<P>(s: Seq<(String, P)>, k: Seq<char>)
    ensures
        property_map(s).contains_key(k) <==> exists|i: int| 0 <= i < s.len() && (#[trigger] s[i]).0@ == k,
    decreases s.len(),
{
    if s.len() > 0 {
        lemma_property_map_dom(s.drop_last(), k);
        if exists|i: int| 0 <= i < s.len() && (#[trigger] s[i]).0@ == k {
            let i = choose|i: int| 0 <= i < s.len() && (#[trigger] s[i]).0@ == k;
            if i < s.len() - 1 {
                assert(s.drop_last()[i] == s[i]);
            }
        }
        if exists|i: int| 0 <= i < s.drop_last().len() && (#[trigger] s.drop_last()[i]).0@ == k {
            let i = choose|i: int| 0 <= i < s.drop_last().len() && (#[trigger] s.drop_last()[i]).0@ == k;
            assert(s[i] == s.drop_last()[i]);
        }
    }
}

/// With distinct names, the map gives each entry's value under its name.
proof fn lemma_property_map_at<P>(s: Seq<(String, P)>, i: int)
    requires
        names_distinct(s),
        0 <= i < s.len(),
    ensures
        property_map(s).contains_key(s[i].0@),
        property_map(s)[s[i].0@] == s[i].1,
    decreases s.len(),
{
    if i < s.len() - 1 {
        let t = s.drop_last();
        assert(names_distinct(t)) by {
            assert forall|a: int, b: int| 0 <= a < b < t.len() implies (#[trigger] t[a]).0@ != (#[trigger] t[b]).0@ by {
                assert(t[a] == s[a] && t[b] == s[b]);
            }
        }
        assert(t[i] == s[i]);
        lemma_property_map_at(t, i);
        assert(s[i].0@ != s[s.len() - 1].0@);
    }
}

/// What merging property maps with `strategy` gives: the second map, or both with the
/// second's values winning.
pub open spec fn merged_property_map<P>(strategy: PropertyMerge, p1: Map<Seq<char>, P>, p2: Map<Seq<char>, P>) -> Map<Seq<char>, P> {
    match strategy {
        PropertyMerge::ReplaceProperties => p2,
        _ => p1.union_prefer_right(p2),
    }
}

/// Properties merged with `strategy`: the second record, or both with the second's
/// values winning on a shared name.
pub fn merge_properties<P>(strategy: &PropertyMerge, p1: Vec<(String, P)>, p2: Vec<(String, P)>) -> (r: Vec<(String, P)>)
    ensures
        property_map(r@) == merged_property_map(*strategy, property_map(p1@), property_map(p2@)),
{
    match strategy {
        PropertyMerge::ReplaceProperties => p2,
        _ => {
            let ghost a = p1@;
            let ghost b = p2@;
            let mut merged = p1;
            let mut rest = p2;
            merged.append(&mut rest);
            proof {
                assert(merged@ =~= a + b);
                lemma_property_map_add(a, b);
            }
            merged
        },
    }
}

/// Merging labels is associative for every strategy: merging `a` with `b` and the
/// result with `c` gives the labels of merging `a` with the merge of `b` and `c`.
pub proof fn lemma_label_merge_associative(
    strategy: LabelMerge,
    a: Set<Seq<char>>,
    b: Set<Seq<char>>,
    c: Set<Seq<char>>,
)
    ensures
        merged_label_set(strategy, merged_label_set(strategy, a, b), c) == merged_label_set(
            strategy,
            a,
            merged_label_set(strategy, b, c),
        ),
{
    assert(merged_label_set(strategy, merged_label_set(strategy, a, b), c) =~= merged_label_set(
        strategy,
        a,
        merged_label_set(strategy, b, c),
    ));
}

/// Merging properties is associative for every strategy: merging `a` with `b` and the
/// result with `c` gives the properties of merging `a` with the merge of `b` and `c`.
pub proof fn lemma_property_merge_associative<P>(
    strategy: PropertyMerge,
    a: Map<Seq<char>, P>,
    b: Map<Seq<char>, P>,
    c: Map<Seq<char>, P>,
)
    ensures
        merged_property_map(strategy, merged_property_map(strategy, a, b), c)
            == merged_property_map(strategy, a, merged_property_map(strategy, b, c)),
{
    assert(merged_property_map(strategy, merged_property_map(strategy, a, b), c)
        =~= merged_property_map(strategy, a, merged_property_map(strategy, b, c)));
}

/// Whether every label of `sub` is a label of `sup`.
pub fn labels_subset(sub: &Vec<String>, sup: &Vec<String>) -> (r: bool)
    ensures
        r == label_set(sub@).subset_of(label_set(sup@)),
{
    let mut i: usize = 0;
    while i < sub.len()
        invariant
            i <= sub.len(),
            forall|k: int| 0 <= k < i ==> label_set(sup@).contains(#[trigger] label_texts(sub@)[k]),
        decreases sub.len() - i,
    {
        if !holds_label(sup, &sub[i]) {
            proof {
                assert(label_set(sub@).contains(sub@[i as int]@)) by {
                    assert(label_texts(sub@)[i as int] == sub@[i as int]@);
                }
                assert(!label_set(sup@).contains(sub@[i as int]@));
            }
            return false;
        }
        proof {
            assert(label_texts(sub@)[i as int] == sub@[i as int]@);
        }
        i = i + 1;
    }
    proof {
        assert forall|t: Seq<char>| label_set(sub@).contains(t) implies label_set(sup@).contains(t) by {
            let k = choose|k: int| 0 <= k < label_texts(sub@).len() && label_texts(sub@)[k] == t;
        }
    }
    true
}

/// Every property of `sub` is a property of `sup` with an equal value.
pub open spec fn properties_refined<P: PartialEq>(sup: Map<Seq<char>, P>, sub: Map<Seq<char>, P>) -> bool {
    forall|k: Seq<char>| #[trigger] sub.contains_key(k) ==> sup.contains_key(k) && sup[k].eq_spec(&sub[k])
}

/// Whether every property of `sub` is a property of `sup` with an equal value
/// (equality as `P` defines it).
pub fn properties_refine<P: PartialEq>(sup: &Vec<(String, P)>, sub: &Vec<(String, P)>) -> (r: bool)
    requires
        names_distinct(sup@),
        names_distinct(sub@),
    ensures
        P::obeys_eq_spec() ==> r == properties_refined(property_map(sup@), property_map(sub@)),
{
    let mut i: usize = 0;
    while i < sub.len()
        invariant
            i <= sub.len(),
            names_distinct(sup@),
            names_distinct(sub@),
            P::obeys_eq_spec() ==> forall|k: int| 0 <= k < i ==> #[trigger] property_map(sup@).contains_key(sub@[k].0@)
                && property_map(sup@)[sub@[k].0@].eq_spec(&sub@[k].1),
        decreases sub.len() - i,
    {
        let name = &sub[i].0;
        let mut j: usize = 0;
        let mut found = false;
        let mut same = false;
        while j < sup.len()
            invariant
                j <= sup.len(),
                i < sub.len(),
                *name == sub@[i as int].0,
                names_distinct(sup@),
                found ==> exists|m: int| 0 <= m < j && sup@[m].0@ == name@ && (P::obeys_eq_spec() ==> same == sup@[m].1.eq_spec(&sub@[i as int].1)),
                !found ==> forall|m: int| 0 <= m < j ==> sup@[m].0@ != name@,
            decreases sup.len() - j,
        {
            if !found && sup[j].0 == *name {
                found = true;
                same = sup[j].1 == sub[i].1;
            }
            j = j + 1;
        }
        proof {
            lemma_property_map_dom(sup@, name@);
            lemma_property_map_at(sub@, i as int);
        }
        if !found || !same {
            proof {
                if P::obeys_eq_spec() {
                    assert(property_map(sub@).contains_key(name@));
                    if found {
                        let m = choose|m: int| 0 <= m < j && sup@[m].0@ == name@ && (P::obeys_eq_spec() ==> same == sup@[m].1.eq_spec(&sub@[i as int].1));
                        lemma_property_map_at(sup@, m);
                    }
                    assert(!(property_map(sup@).contains_key(name@) && property_map(sup@)[name@].eq_spec(&property_map(sub@)[name@])));
                }
            }
            return false;
        }
        proof {
            let m = choose|m: int| 0 <= m < j && sup@[m].0@ == name@ && (P::obeys_eq_spec() ==> same == sup@[m].1.eq_spec(&sub@[i as int].1));
            lemma_property_map_at(sup@, m);
        }
        i = i + 1;
    }
    proof {
        if P::obeys_eq_spec() {
            assert forall|k: Seq<char>| #[trigger] property_map(sub@).contains_key(k) implies property_map(sup@).contains_key(k)
                && property_map(sup@)[k].eq_spec(&property_map(sub@)[k]) by {
                lemma_property_map_dom(sub@, k);
                let a = choose|a: int| 0 <= a < sub@.len() && (#[trigger] sub@[a]).0@ == k;
                lemma_property_map_at(sub@, a);
            }
        }
    }
    true
}

} // verus!
