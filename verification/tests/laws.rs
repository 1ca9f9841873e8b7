use pattern_core::{Combinable, Pattern};

fn tree() -> Pattern<i32> {
    Pattern::pattern(1, vec![Pattern::pattern(2, vec![Pattern::point(3)]), Pattern::point(4)])
}

#[test]
fn matching_is_reflexive_and_symmetric_and_implies_containment() {
    let a = tree();
    let b = tree();
    let c = Pattern::pattern(1, vec![Pattern::point(2)]);
    assert!(a.matches(&a));
    assert_eq!(a.matches(&b), b.matches(&a));
    assert_eq!(a.matches(&c), c.matches(&a));
    assert!(a.matches(&b) && a.contains(&b));
    assert!(a.contains(&a));
}

#[test]
fn containment_is_transitive() {
    let inner = Pattern::point(3);
    let middle = Pattern::pattern(2, vec![Pattern::point(3)]);
    let outer = tree();
    assert!(outer.contains(&middle));
    assert!(middle.contains(&inner));
    assert!(outer.contains(&inner));
    assert!(!middle.contains(&outer));
}

#[test]
fn map_identity_and_composition() {
    let p = tree();
    assert_eq!(p.clone().map(|x: &i32| *x), p);
    let f = |x: &i32| x + 1;
    let g = |x: &i32| x * 10;
    assert_eq!(p.clone().map(f).map(g), p.clone().map(|x: &i32| (x + 1) * 10));
}

#[test]
fn extend_identities_and_associativity() {
    let p = tree();
    assert_eq!(p.extend(&|q: &Pattern<i32>| *q.value()), p);
    let sizes = p.extend(&|q: &Pattern<i32>| q.size());
    assert_eq!(*sizes.extract(), p.size());
    let g = |q: &Pattern<i32>| q.size();
    let f = |q: &Pattern<usize>| q.elements().iter().map(|e| *e.value()).sum::<usize>();
    let left = p.extend(&g).extend(&f);
    let right = p.extend(&|q: &Pattern<i32>| f(&q.extend(&g)));
    assert_eq!(left, right);
}

#[test]
fn traversal_identity_keeps_shape() {
    let p = tree();
    assert_eq!(p.traverse_option(|x: &i32| Some(*x)), Some(p.clone()));
    assert_eq!(p.traverse_result(|x: &i32| Ok::<i32, String>(*x)), Ok(p.clone()));
    let doubled = p.traverse_option(|x: &i32| Some(x * 2)).unwrap();
    assert_eq!(doubled.size(), p.size());
    assert_eq!(doubled.depth(), p.depth());
    assert_eq!(doubled.length(), p.length());
}

#[test]
fn levels_account_for_every_node() {
    let p = tree();
    let analysis = p.analyze_structure();
    assert_eq!(analysis.depth_distribution.iter().sum::<usize>(), p.size());
}

#[test]
fn value_combination_is_associative() {
    let (a, b, c) = ("ab".to_string(), "cd".to_string(), "ef".to_string());
    assert_eq!(a.clone().combine(b.clone()).combine(c.clone()), a.combine(b.combine(c)));
    let (x, y, z) = (vec![1], vec![2, 3], vec![4]);
    assert_eq!(x.clone().combine(y.clone()).combine(z.clone()), x.combine(y.combine(z)));
    assert_eq!(().combine(()), ());
}

#[test]
fn find_first_is_the_first_filtered() {
    let p = Pattern::pattern(1, vec![Pattern::pattern(2, vec![Pattern::point(3)]), Pattern::point(4)]);
    let first = p.find_first(|q: &Pattern<i32>| q.value > 1).map(|q| q.value);
    let all: Vec<i32> = p.filter(|q: &Pattern<i32>| q.value > 1).iter().map(|q| q.value).collect();
    assert_eq!(first, Some(2));
    assert_eq!(first, all.first().copied());
    assert!(p.find_first(|q: &Pattern<i32>| q.value > 9).is_none());
    assert!(p.filter(|q: &Pattern<i32>| q.value > 9).is_empty());
}

#[test]
fn all_values_is_not_any_failing() {
    let p = Pattern::pattern(2, vec![Pattern::point(4), Pattern::point(7)]);
    assert_eq!(p.all_values(|v: &i32| *v % 2 == 0), !p.any_value(|v: &i32| *v % 2 != 0));
    assert_eq!(p.all_values(|v: &i32| *v > 0), !p.any_value(|v: &i32| *v <= 0));
}
