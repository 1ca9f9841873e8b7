use pattern_core::{unfold, Combinable, Pattern, ValidationRules};

fn sample() -> Pattern<i32> {
    Pattern::pattern(
        1,
        vec![Pattern::pattern(2, vec![Pattern::point(4)]), Pattern::point(3)],
    )
}

#[test]
fn construction_and_accessors() {
    let p = sample();
    assert_eq!(*p.value(), 1);
    assert_eq!(p.length(), 2);
    assert_eq!(p.size(), 4);
    assert_eq!(p.depth(), 2);
    assert!(!p.is_atomic());
    assert!(Pattern::point(7).is_atomic());
    assert_eq!(Pattern::point(7).depth(), 0);
    let l = Pattern::from_list("r", vec!["a", "b", "c"]);
    assert_eq!(l.length(), 3);
    assert_eq!(*l.elements()[2].value(), "c");
    assert!(l.elements()[0].is_atomic());
}

#[test]
fn predicates_over_values() {
    let p = sample();
    assert!(p.any_value(|v: &i32| *v == 4));
    assert!(!p.any_value(|v: &i32| *v > 4));
    assert!(p.all_values(|v: &i32| *v > 0));
    assert!(!p.all_values(|v: &i32| *v < 4));
}

#[test]
fn filter_and_find_first_in_pre_order() {
    let p = sample();
    let atomic: Vec<i32> = p.filter(|q: &Pattern<i32>| q.is_atomic()).iter().map(|q| *q.value()).collect();
    assert_eq!(atomic, vec![4, 3]);
    let all: Vec<i32> = p.filter(|_q: &Pattern<i32>| true).iter().map(|q| *q.value()).collect();
    assert_eq!(all, vec![1, 2, 4, 3]);
    assert_eq!(*p.find_first(|q: &Pattern<i32>| *q.value() > 1).unwrap().value(), 2);
    assert!(p.find_first(|q: &Pattern<i32>| *q.value() > 10).is_none());
}

#[test]
fn matches_and_contains() {
    let p = sample();
    assert!(p.matches(&sample()));
    assert!(!p.matches(&Pattern::point(1)));
    assert!(p.contains(&Pattern::pattern(2, vec![Pattern::point(4)])));
    assert!(p.contains(&p));
    assert!(!p.contains(&Pattern::point(5)));
}

#[test]
fn map_fold_values() {
    let p = sample();
    let doubled = p.map(|v: &i32| *v * 2);
    assert_eq!(*doubled.value(), 2);
    assert_eq!(*doubled.elements()[0].elements()[0].value(), 8);
    let q = sample();
    assert_eq!(q.fold(0, |acc: i32, v: &i32| acc + *v), 10);
    let order = q.fold(Vec::new(), |mut acc: Vec<i32>, v: &i32| {
        acc.push(*v);
        acc
    });
    assert_eq!(order, vec![1, 2, 4, 3]);
    let vals: Vec<i32> = q.values().into_iter().copied().collect();
    assert_eq!(vals, vec![1, 2, 4, 3]);
}

#[test]
fn traversals() {
    let p = sample();
    let ok = p.traverse_option(|v: &i32| if *v > 0 { Some(*v + 1) } else { None });
    assert_eq!(*ok.unwrap().elements()[1].value(), 4);
    assert!(p.traverse_option(|v: &i32| if *v != 4 { Some(*v) } else { None }).is_none());
    let r: Result<Pattern<i32>, String> = p.traverse_result(|v: &i32| {
        if *v % 2 == 1 { Ok(*v) } else { Err(format!("even {}", v)) }
    });
    assert_eq!(r.unwrap_err(), "even 2");
    let s = Pattern::pattern(Some(1), vec![Pattern::point(Some(2))]);
    assert_eq!(*s.sequence_option().unwrap().elements()[0].value(), 2);
    let n = Pattern::pattern(Some(1), vec![Pattern::point(None::<i32>)]);
    assert!(n.sequence_option().is_none());
    let e: Pattern<Result<i32, &str>> = Pattern::pattern(Ok(1), vec![Pattern::point(Err("bad")), Pattern::point(Err("worse"))]);
    assert_eq!(e.sequence_result().unwrap_err(), "bad");
}

#[test]
fn validate_all_collects_every_error_in_order() {
    let p = Pattern::pattern(-1, vec![Pattern::point(2), Pattern::point(-3)]);
    let r: Result<Pattern<i32>, Vec<String>> =
        p.validate_all(|v: &i32| if *v > 0 { Ok(*v * 10) } else { Err(format!("negative: {}", v)) });
    assert_eq!(r.unwrap_err(), vec!["negative: -1".to_string(), "negative: -3".to_string()]);
    let good = Pattern::pattern(1, vec![Pattern::point(2), Pattern::pattern(3, vec![Pattern::point(4)])]);
    let r2: Result<Pattern<i32>, Vec<String>> = good.validate_all(|v: &i32| Ok(*v * 10));
    let q = r2.unwrap();
    assert_eq!(*q.value(), 10);
    assert_eq!(*q.elements()[1].elements()[0].value(), 40);
    assert_eq!(q.size(), 4);
}

#[test]
fn combination_of_values_and_elements() {
    let a = Pattern::pattern("ab".to_string(), vec![Pattern::point("x".to_string())]);
    let b = Pattern::pattern("cd".to_string(), vec![Pattern::point("y".to_string())]);
    let c = a.combine(b);
    assert_eq!(c.value(), "abcd");
    assert_eq!(c.length(), 2);
    assert_eq!(c.elements()[1].value(), "y");
    assert_eq!(vec![1, 2].combine(vec![3]), vec![1, 2, 3]);
    assert_eq!("hello".to_string().combine(" world".to_string()), "hello world");
    assert_eq!(().combine(()), ());
}

#[test]
fn combination_is_associative() {
    let mk = |s: &str, e: &str| Pattern::pattern(s.to_string(), vec![Pattern::point(e.to_string())]);
    let left = mk("a", "1").combine(mk("b", "2")).combine(mk("c", "3"));
    let right = mk("a", "1").combine(mk("b", "2").combine(mk("c", "3")));
    assert_eq!(left, right);
    assert_eq!(left.value(), "abc");
}

#[test]
fn default_pattern_is_identity() {
    let p = Pattern::pattern("hello".to_string(), vec![Pattern::point("x".to_string())]);
    let empty: Pattern<String> = Pattern::default();
    assert_eq!(empty.value(), "");
    assert_eq!(empty.length(), 0);
    assert_eq!(empty.clone().combine(p.clone()), p);
    assert_eq!(p.clone().combine(empty), p);
    let unit: Pattern<()> = Pattern::default();
    assert!(unit.is_atomic());
}

#[test]
fn zip3_and_zip_with_stop_at_shortest() {
    let s = |x: &str| Pattern::point(x.to_string());
    let left = vec![s("a"), s("b"), s("z")];
    let right = vec![s("c"), s("d")];
    let values = vec!["v1".to_string(), "v2".to_string(), "v3".to_string()];
    let zipped = Pattern::zip3(left, right, values);
    assert_eq!(zipped.len(), 2);
    assert_eq!(zipped[1].value(), "v2");
    assert_eq!(zipped[1].elements()[0].value(), "b");
    assert_eq!(zipped[1].elements()[1].value(), "d");
    let l = vec![Pattern::point(vec![1]), Pattern::point(vec![2])];
    let r = vec![Pattern::point(vec![3]), Pattern::point(vec![4]), Pattern::point(vec![5])];
    let w = Pattern::zip_with(l, r, |a: &Pattern<Vec<i32>>, b: &Pattern<Vec<i32>>| {
        let mut v = a.value().clone();
        v.extend(b.value().iter());
        v
    });
    assert_eq!(w.len(), 2);
    assert_eq!(*w[0].value(), vec![1, 3]);
    assert_eq!(*w[1].value(), vec![2, 4]);
}

#[test]
fn validate_reports_depth_before_elements() {
    let p = Pattern::pattern(0, vec![Pattern::pattern(1, vec![Pattern::point(2)]), Pattern::point(3)]);
    let unlimited = ValidationRules::default();
    assert!(p.validate(&unlimited).is_ok());
    let shallow = ValidationRules { max_depth: Some(1), max_elements: None, required_fields: vec![] };
    let e = p.validate(&shallow).unwrap_err();
    assert_eq!(e.rule_violated, "max_depth");
    assert_eq!(e.message, "Pattern depth 2 exceeds maximum allowed depth 1");
    assert_eq!(e.location, vec!["elements".to_string(), "0".to_string(), "elements".to_string(), "0".to_string()]);
    let narrow = ValidationRules { max_depth: None, max_elements: Some(1), required_fields: vec![] };
    let e2 = p.validate(&narrow).unwrap_err();
    assert_eq!(e2.rule_violated, "max_elements");
    assert_eq!(e2.message, "Pattern has 2 elements, exceeding maximum allowed 1");
    assert!(e2.location.is_empty());
    let both = ValidationRules { max_depth: Some(0), max_elements: Some(0), required_fields: vec![] };
    let e3 = p.validate(&both).unwrap_err();
    assert_eq!(e3.rule_violated, "max_elements");
    let wide: Pattern<i32> = Pattern::from_list(0, (0..12).collect());
    let e4 = wide.validate(&ValidationRules { max_depth: None, max_elements: Some(10), required_fields: vec![] }).unwrap_err();
    assert_eq!(e4.message, "Pattern has 12 elements, exceeding maximum allowed 10");
}

#[test]
fn structure_analysis_counts_levels() {
    let atomic = Pattern::point("a");
    let a = atomic.analyze_structure();
    assert_eq!(a.depth_distribution, vec![1]);
    assert!(a.element_counts.is_empty());
    assert_eq!(a.nesting_patterns, vec!["atomic".to_string()]);
    assert_eq!(a.summary, "Pattern with 1 level, 1 node, atomic-like structure");

    let linear = Pattern::pattern("a", vec![Pattern::pattern("b", vec![Pattern::point("c")])]);
    let l = linear.analyze_structure();
    assert_eq!(l.depth_distribution, vec![1, 1, 1]);
    assert_eq!(l.element_counts, vec![1, 1]);
    assert_eq!(l.nesting_patterns, vec!["linear".to_string()]);
    assert_eq!(l.summary, "Pattern with 3 levels, 3 nodes, linear-like structure");

    let balanced = Pattern::pattern(
        0,
        vec![
            Pattern::pattern(1, vec![Pattern::point(3), Pattern::point(4)]),
            Pattern::pattern(2, vec![Pattern::point(5), Pattern::point(6), Pattern::point(7)]),
        ],
    );
    let b = balanced.analyze_structure();
    assert_eq!(b.depth_distribution, vec![1, 2, 5]);
    assert_eq!(b.element_counts, vec![2, 3]);
    assert_eq!(b.nesting_patterns, vec!["tree".to_string(), "balanced".to_string()]);
    assert_eq!(b.summary, "Pattern with 3 levels, 8 nodes, tree-like structure");

    let skewed = Pattern::pattern(0, vec![Pattern::pattern(1, (2..8).map(Pattern::point).collect()), Pattern::point(9)]);
    let s = skewed.analyze_structure();
    assert_eq!(s.element_counts, vec![2, 6]);
    assert_eq!(s.nesting_patterns, vec!["tree".to_string()]);
}

#[test]
fn unfold_builds_depth_first() {
    let tree = unfold(|depth: u32| if depth == 0 { (depth, vec![]) } else { (depth, vec![depth - 1, depth - 1]) }, 2u32);
    assert_eq!(*tree.value(), 2);
    assert_eq!(tree.length(), 2);
    assert_eq!(*tree.elements()[0].value(), 1);
    assert_eq!(tree.size(), 7);
    assert_eq!(tree.depth(), 2);
}
