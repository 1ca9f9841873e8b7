use pattern_core::reconcile::subject_merge::{
    labels_subset, merge_labels, merge_properties, properties_refine,
};
use pattern_core::reconcile::{LabelMerge, PropertyMerge};

fn labels(xs: &[&str]) -> Vec<String> {
    xs.iter().map(|x| x.to_string()).collect()
}

fn sorted(mut v: Vec<String>) -> Vec<String> {
    v.sort();
    v
}

fn props(xs: &[(&str, i64)]) -> Vec<(String, i64)> {
    xs.iter().map(|(k, v)| (k.to_string(), *v)).collect()
}

fn as_map(v: Vec<(String, i64)>) -> std::collections::HashMap<String, i64> {
    v.into_iter().collect()
}

#[test]
fn union_of_labels_keeps_each_once() {
    let r = merge_labels(&LabelMerge::UnionLabels, &labels(&["A", "B"]), &labels(&["B", "C"]));
    assert_eq!(sorted(r), labels(&["A", "B", "C"]));
}

#[test]
fn union_of_labels_drops_repeats_within_one_side() {
    let r = merge_labels(&LabelMerge::UnionLabels, &labels(&["A", "A"]), &labels(&[]));
    assert_eq!(r, labels(&["A"]));
}

#[test]
fn intersection_of_labels() {
    let r = merge_labels(&LabelMerge::IntersectLabels, &labels(&["A", "B", "C"]), &labels(&["C", "B", "D"]));
    assert_eq!(sorted(r), labels(&["B", "C"]));
}

#[test]
fn replaced_labels_are_the_second() {
    let r = merge_labels(&LabelMerge::ReplaceLabels, &labels(&["A"]), &labels(&["B", "C"]));
    assert_eq!(sorted(r), labels(&["B", "C"]));
}

#[test]
fn shallow_merge_lets_the_second_value_win() {
    let r = merge_properties(&PropertyMerge::ShallowMerge, props(&[("a", 1), ("b", 2)]), props(&[("b", 3), ("c", 4)]));
    assert_eq!(as_map(r), as_map(props(&[("a", 1), ("b", 3), ("c", 4)])));
}

#[test]
fn deep_merge_behaves_as_shallow_merge() {
    let r = merge_properties(&PropertyMerge::DeepMerge, props(&[("a", 1)]), props(&[("a", 5)]));
    assert_eq!(as_map(r), as_map(props(&[("a", 5)])));
}

#[test]
fn replaced_properties_are_the_second() {
    let r = merge_properties(&PropertyMerge::ReplaceProperties, props(&[("a", 1)]), props(&[("b", 2)]));
    assert_eq!(as_map(r), as_map(props(&[("b", 2)])));
}

#[test]
fn label_subset_checks() {
    assert!(labels_subset(&labels(&["A"]), &labels(&["A", "B"])));
    assert!(labels_subset(&labels(&[]), &labels(&[])));
    assert!(!labels_subset(&labels(&["A", "C"]), &labels(&["A", "B"])));
}

#[test]
fn property_refinement_checks() {
    let sup = props(&[("a", 1), ("b", 2)]);
    assert!(properties_refine(&sup, &props(&[("b", 2)])));
    assert!(properties_refine(&sup, &props(&[])));
    assert!(!properties_refine(&sup, &props(&[("b", 3)])));
    assert!(!properties_refine(&sup, &props(&[("c", 1)])));
}

#[test]
fn label_and_property_merging_is_associative() {
    let (a, b, c) = (labels(&["L1"]), labels(&["L2"]), labels(&["L3", "L1"]));
    for strategy in [LabelMerge::UnionLabels, LabelMerge::IntersectLabels, LabelMerge::ReplaceLabels] {
        let left = merge_labels(&strategy, &merge_labels(&strategy, &a, &b), &c);
        let right = merge_labels(&strategy, &a, &merge_labels(&strategy, &b, &c));
        assert_eq!(sorted(left), sorted(right));
    }
    let (p, q, r) = (props(&[("x", 1)]), props(&[("x", 2), ("y", 3)]), props(&[("y", 4)]));
    for strategy in [PropertyMerge::ShallowMerge, PropertyMerge::ReplaceProperties] {
        let left = merge_properties(&strategy, merge_properties(&strategy, p.clone(), q.clone()), r.clone());
        let right = merge_properties(&strategy, p.clone(), merge_properties(&strategy, q.clone(), r.clone()));
        assert_eq!(as_map(left), as_map(right));
    }
}
