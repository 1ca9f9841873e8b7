use pattern_core::test_utils::equivalence::{equivalence_outcome, ComparisonMethod};
use pattern_core::test_utils::helpers::{
    assert_pattern_structure_valid, assert_patterns_equal, assert_patterns_equivalent, counting_effect, EffectCounter,
    PatternComparisonOptions, ValidationRules,
};
use pattern_core::Pattern;

#[test]
fn equivalence_outcome_reports_one_root_difference() {
    let same = equivalence_outcome(true, "a".to_string(), "a".to_string(), ComparisonMethod::Direct);
    assert!(same.equivalent);
    assert!(same.differences.is_empty());
    assert_eq!(same.comparison_method, ComparisonMethod::Direct);
    let differ = equivalence_outcome(false, "a".to_string(), "b".to_string(), ComparisonMethod::Json);
    assert!(!differ.equivalent);
    assert_eq!(differ.differences.len(), 1);
    assert_eq!(differ.differences[0].path, vec!["root".to_string()]);
    assert_eq!(differ.differences[0].expected, "a");
    assert_eq!(differ.differences[0].actual, "b");
    assert_eq!(differ.differences[0].description, "Outputs differ");
    assert_eq!(differ.comparison_method, ComparisonMethod::Json);
}

#[test]
fn comparison_helpers_compare() {
    let p = Pattern::point(1);
    let q = Pattern::point(2);
    assert!(assert_patterns_equal(&p, &Pattern::point(1), "values").is_ok());
    let e = assert_patterns_equal(&p, &q, "values").unwrap_err();
    assert_eq!(e.message, "values: patterns differ");
    assert_eq!(e.differences.len(), 1);
    assert_eq!(e.differences[0].field, "pattern");
    assert!(e.differences[0].actual.contains('1'));
    assert!(e.differences[0].expected.contains('2'));
    let deep = PatternComparisonOptions::default();
    let shallow = PatternComparisonOptions { deep: false, ..PatternComparisonOptions::default() };
    let a = Pattern::pattern(1, vec![Pattern::point(2)]);
    let b = Pattern::pattern(1, vec![Pattern::point(3)]);
    assert!(assert_patterns_equivalent(&a, &b, &deep).is_err());
    assert!(assert_patterns_equivalent(&a, &b, &shallow).is_ok());
    assert!(assert_patterns_equivalent(&p, &q, &shallow).is_err());
}

#[test]
fn structure_helper_checks_limits() {
    let p = Pattern::pattern(1, vec![Pattern::point(2), Pattern::point(3)]);
    assert!(assert_pattern_structure_valid(&p, &ValidationRules::default()).is_ok());
    let rules = ValidationRules { max_elements: Some(1), ..ValidationRules::default() };
    let e = assert_pattern_structure_valid(&p, &rules).unwrap_err();
    assert_eq!(e.rule_violated, "max_elements");
    let rules = ValidationRules { max_depth: Some(0), ..ValidationRules::default() };
    let e = assert_pattern_structure_valid(&p, &rules).unwrap_err();
    assert_eq!(e.rule_violated, "max_depth");
    assert_eq!(e.location, vec!["elements".to_string(), "0".to_string()]);
}

#[test]
fn effect_counter_counts_calls() {
    let counter = EffectCounter::new();
    assert_eq!(counter.count(), 0);
    {
        let f = counting_effect(&counter, |x: &i32| -> Result<i32, String> {
            if *x >= 0 {
                Ok(x * 2)
            } else {
                Err("negative".to_string())
            }
        });
        assert_eq!(f(&3), Ok(6));
        assert_eq!(f(&-1), Err("negative".to_string()));
    }
    assert_eq!(counter.count(), 2);
    let copy = counter.clone();
    counter.reset();
    assert_eq!(counter.count(), 0);
    assert_eq!(copy.count(), 2);
    counter.increment();
    assert_eq!(counter.count(), 1);
    assert_eq!(EffectCounter::default().count(), 0);
}
