use pattern_core::pattern::layout::{debug_layout, display_layout};
use pattern_core::Pattern;

fn leaf(s: &str) -> Pattern<String> {
    Pattern::point(s.to_string())
}

#[test]
fn display_layout_nests_values() {
    let p = Pattern::pattern("a".to_string(), vec![leaf("b"), Pattern::pattern("c".to_string(), vec![leaf("d")])]);
    assert_eq!(display_layout(&p), "(a (b) (c (d)))");
    assert_eq!(display_layout(&leaf("x")), "(x)");
}

#[test]
fn display_layout_elides_long_lists_and_deep_nesting() {
    let many: Vec<Pattern<String>> = (0..11).map(|i| leaf(&i.to_string())).collect();
    let p = Pattern::pattern("r".to_string(), many);
    assert_eq!(display_layout(&p), "(r (0) (1) (2) (3) (4) ... (6 more))");
    let ten: Vec<Pattern<String>> = (0..10).map(|i| leaf(&i.to_string())).collect();
    let q = Pattern::pattern("r".to_string(), ten);
    assert_eq!(display_layout(&q), "(r (0) (1) (2) (3) (4) (5) (6) (7) (8) (9))");
    let mut deep = leaf("z");
    for _ in 0..11 {
        deep = Pattern::pattern("n".to_string(), vec![deep]);
    }
    let expected = format!("{}...{}", "(n ".repeat(11), ")".repeat(11));
    assert_eq!(display_layout(&deep), expected);
}

#[test]
fn debug_layout_lists_fields() {
    let p = Pattern::pattern("\"a\"".to_string(), vec![leaf("\"b\"")]);
    assert_eq!(
        debug_layout(&p),
        "Pattern { value: \"a\", elements: [Pattern { value: \"b\", elements: [] }] }"
    );
    let many: Vec<Pattern<String>> = (0..12).map(|i| leaf(&i.to_string())).collect();
    let q = Pattern::pattern("r".to_string(), many);
    let text = debug_layout(&q);
    assert!(text.ends_with(", ... (7 more)] }"));
}
