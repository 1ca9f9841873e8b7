use pattern_core::Pattern;

#[test]
fn extract_returns_value() {
    let p = Pattern::point(42);
    assert_eq!(p.extract(), &42);
}

#[test]
fn extend_applies_function_at_all_positions() {
    let p = Pattern::pattern(1, vec![Pattern::point(2), Pattern::point(3)]);
    let sizes = p.extend(&|subp: &Pattern<i32>| subp.size());
    assert_eq!(*sizes.extract(), 3);
    assert_eq!(*sizes.elements()[0].extract(), 1);
    assert_eq!(*sizes.elements()[1].extract(), 1);
}

#[test]
fn depth_at_atomic_pattern() {
    let p = Pattern::point("x");
    let depths = p.depth_at();
    assert_eq!(depths.extract(), &0);
}

#[test]
fn depth_at_with_children() {
    let p = Pattern::pattern("root", vec![Pattern::point("a"), Pattern::point("b")]);
    let depths = p.depth_at();
    assert_eq!(depths.extract(), &1);
}

#[test]
fn depth_at_nested() {
    let p = Pattern::pattern("root", vec![Pattern::pattern("a", vec![Pattern::point("x")])]);
    let depths = p.depth_at();
    assert_eq!(depths.extract(), &2);
    assert_eq!(depths.elements()[0].extract(), &1);
}

#[test]
fn size_at_atomic_pattern() {
    let p = Pattern::point("x");
    let sizes = p.size_at();
    assert_eq!(sizes.extract(), &1);
}

#[test]
fn size_at_with_children() {
    let p = Pattern::pattern(
        "root",
        vec![Pattern::point("a"), Pattern::point("b"), Pattern::point("c")],
    );
    let sizes = p.size_at();
    assert_eq!(sizes.extract(), &4);
    assert_eq!(sizes.elements()[0].extract(), &1);
}

#[test]
fn indices_at_atomic_pattern() {
    let p = Pattern::point("x");
    let paths = p.indices_at();
    assert_eq!(paths.extract(), &Vec::<usize>::new());
}

#[test]
fn indices_at_with_children() {
    let p = Pattern::pattern("root", vec![Pattern::point("a"), Pattern::point("b")]);
    let paths = p.indices_at();
    assert_eq!(paths.extract(), &Vec::<usize>::new());
    assert_eq!(paths.elements()[0].extract(), &vec![0]);
    assert_eq!(paths.elements()[1].extract(), &vec![1]);
}

#[test]
fn indices_at_nested() {
    let p = Pattern::pattern(
        "root",
        vec![Pattern::pattern("a", vec![Pattern::point("x")]), Pattern::point("b")],
    );
    let paths = p.indices_at();
    assert_eq!(paths.extract(), &Vec::<usize>::new());
    assert_eq!(paths.elements()[0].extract(), &vec![0]);
    assert_eq!(paths.elements()[0].elements()[0].extract(), &vec![0, 0]);
    assert_eq!(paths.elements()[1].extract(), &vec![1]);
}

#[test]
fn extend_law_extract_of_extend_is_function() {
    let p = Pattern::pattern(5, vec![Pattern::point(6)]);
    let e = p.extend(&|q: &Pattern<i32>| *q.value() * 10);
    assert_eq!(*e.extract(), 50);
    assert_eq!(*e.elements()[0].extract(), 60);
}

#[test]
fn depth_and_size_at_agree_with_depth_and_size() {
    let p = Pattern::pattern(
        "r",
        vec![Pattern::pattern("a", vec![Pattern::point("x"), Pattern::point("y")]), Pattern::point("b")],
    );
    assert_eq!(*p.depth_at().extract(), p.depth());
    assert_eq!(*p.size_at().extract(), p.size());
    assert_eq!(*p.size_at().elements()[0].extract(), 3);
}
