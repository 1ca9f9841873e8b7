use vstd::prelude::*;
use vstd::std_specs::cmp::PartialEqSpec;

use crate::pattern::matching::tree_matches;
use crate::pattern::validation::{texts, tree_violation, ValidationRules as PatternRules};
use crate::pattern::{lemma_pattern_view, Pattern};
use crate::tree::tree_size;

verus! {

/// Why two patterns were found to differ.
#[derive(Debug, Clone, PartialEq, Eq)]
pub struct PatternComparisonError {
    pub message: String,
    pub differences: Vec<Difference>,
    pub path: Vec<String>,
}

/// One difference between two patterns.
#[derive(Debug, Clone, PartialEq, Eq)]
pub struct Difference {
    pub field: String,
    pub expected: String,
    pub actual: String,
}

/// How patterns are compared.
#[derive(Debug, Clone)]
pub struct PatternComparisonOptions {
    pub deep: bool,
    pub ignore_fields: Vec<String>,
    pub approximate_equality: bool,
}

impl Default for PatternComparisonOptions {
    /// Deep, exact comparison of every field.
    fn default() -> (r: Self)
        ensures
            r.deep,
            r.ignore_fields@.len() == 0,
            !r.approximate_equality,
    {
        PatternComparisonOptions { deep: true, ignore_fields: Vec::new(), approximate_equality: false }
    }
}

/// Limits for checking a pattern's structure in tests.
#[derive(Debug, Clone)]
pub struct ValidationRules {
    pub max_depth: Option<usize>,
    pub max_elements: Option<usize>,
    pub required_fields: Vec<String>,
}

impl Default for ValidationRules {
    /// No limits and no required fields.
    fn default() -> (r: Self)
        ensures
            r.max_depth is None,
            r.max_elements is None,
            r.required_fields@.len() == 0,
    {
        ValidationRules { max_depth: None, max_elements: None, required_fields: Vec::new() }
    }
}

/// A structure check that failed.
#[derive(Debug, Clone, PartialEq, Eq)]
pub struct ValidationError {
    pub message: String,
    pub rule_violated: String,
    pub location: Vec<String>,
}

/// The `Debug` text of a value, as `format!("{:?}", ..)` writes it. What the text
/// holds is up to the value's `Debug` implementation, so nothing is stated of it.
#[verifier::external_body]
fn debug_text<T: std::fmt::Debug>(v: &T) -> (r: String) {
    format!("{:?}", v)
}

/// The error reported for two patterns that differ: the message `msg` followed by
/// `": patterns differ"`, and one difference on the field `"pattern"` that holds the
/// `Debug` texts of the expected and the actual pattern.
fn difference_error<V: std::fmt::Debug>(actual: &Pattern<V>, expected: &Pattern<V>, msg: &str) -> (r:
    PatternComparisonError)
    ensures
        comparison_error_shape(r, msg@),
{
    let mut message = msg.to_owned();
    message.append(": patterns differ");
    let mut differences: Vec<Difference> = Vec::new();
    differences.push(
        Difference { field: "pattern".to_owned(), expected: debug_text(expected), actual: debug_text(actual) },
    );
    PatternComparisonError { message, differences, path: Vec::new() }
}

/// The shape of the error for patterns that differ: the message is `msg` followed by
/// `": patterns differ"`, and there is one difference, on the field `"pattern"`, at
/// the root.
pub open spec fn comparison_error_shape(e: PatternComparisonError, msg: Seq<char>) -> bool {
    &&& e.message@ == msg + ": patterns differ"@
    &&& e.differences@.len() == 1
    &&& e.differences@[0].field@ == "pattern"@
    &&& e.path@.len() == 0
}

/// Compares two patterns: `Ok` when they have the same structure and equal values
/// (equality as `V` defines it), else an error whose message starts with `msg` and
/// whose difference holds the `Debug` texts of both patterns.
pub fn assert_patterns_equal<V: PartialEq + std::fmt::Debug>(actual: &Pattern<V>, expected: &Pattern<V>, msg: &str) -> (r:
    Result<(), PatternComparisonError>)
    ensures
        V::obeys_eq_spec() ==> (r is Ok <==> tree_matches(actual@, expected@)),
        r is Err ==> comparison_error_shape(r->Err_0, msg@),
{
    if actual.matches(expected) {
        Ok(())
    } else {
        Err(difference_error(actual, expected, msg))
    }
}

/// What a structure-check error says, as plain text: message, rule and location.
pub open spec fn structure_error_text(e: ValidationError) -> (Seq<char>, Seq<char>, Seq<Seq<char>>) {
    (e.message@, e.rule_violated@, texts(e.location@))
}

/// Checks a pattern's structure against `rules`: `Ok` when no node sits deeper than
/// `max_depth` or has more elements than `max_elements`, else the first node in
/// pre-order that breaks a rule, as [`Pattern::validate`] reports it.
pub fn assert_pattern_structure_valid<V: std::fmt::Debug>(pattern: &Pattern<V>, rules: &ValidationRules) -> (r: Result<
    (),
    ValidationError,
>)
    requires
        tree_size(pattern@) <= usize::MAX,
    ensures
        match r {
            Ok(()) => tree_violation(pattern@, rules.max_depth, rules.max_elements, 0, seq![]) is None,
            Err(e) => tree_violation(pattern@, rules.max_depth, rules.max_elements, 0, seq![]) == Some(
                structure_error_text(e),
            ),
        },
{
    let limits = PatternRules {
        max_depth: rules.max_depth,
        max_elements: rules.max_elements,
        required_fields: Vec::new(),
    };
    match pattern.validate(&limits) {
        Ok(()) => Ok(()),
        Err(e) => Err(ValidationError { message: e.message, rule_violated: e.rule_violated, location: e.location }),
    }
}

/// Compares two patterns under `options`: with `deep`, as [`assert_patterns_equal`]
/// does; without it, only the roots, by their values and their numbers of elements.
/// Pattern values have no named fields and are compared by `==`, so `ignore_fields`
/// and `approximate_equality` do not change the outcome.
pub fn assert_patterns_equivalent<V: PartialEq + std::fmt::Debug>(
    pattern_a: &Pattern<V>,
    pattern_b: &Pattern<V>,
    options: &PatternComparisonOptions,
) -> (r: Result<(), PatternComparisonError>)
    ensures
        V::obeys_eq_spec() ==> (r is Ok <==> if options.deep {
            tree_matches(pattern_a@, pattern_b@)
        } else {
            pattern_a@.value.eq_spec(&pattern_b@.value) && pattern_a@.children.len()
                == pattern_b@.children.len()
        }),
        r is Err ==> comparison_error_shape(r->Err_0, "patterns are not equivalent"@),
{
    proof {
        lemma_pattern_view(*pattern_a);
        lemma_pattern_view(*pattern_b);
    }
    let same = if options.deep {
        pattern_a.matches(pattern_b)
    } else {
        pattern_a.value == pattern_b.value && pattern_a.elements.len() == pattern_b.elements.len()
    };
    if same {
        Ok(())
    } else {
        Err(difference_error(pattern_a, pattern_b, "patterns are not equivalent"))
    }
}

/// Counts calls of an effectful function, through a shared reference.
#[derive(Debug)]
pub struct EffectCounter {
    count: std::sync::atomic::AtomicUsize,
}

impl EffectCounter {
    /// A counter at zero.
    pub fn new() -> (r: Self) {
        EffectCounter { count: std::sync::atomic::AtomicUsize::new(0) }
    }

    /// Counts one more call.
    pub fn increment(&self) {
        self.count.fetch_add(1, std::sync::atomic::Ordering::SeqCst);
    }

    /// The number of calls counted since creation or the last reset.
    pub fn count(&self) -> (r: usize) {
        self.count.load(std::sync::atomic::Ordering::SeqCst)
    }

    /// Sets the count back to zero.
    pub fn reset(&self) {
        self.count.store(0, std::sync::atomic::Ordering::SeqCst);
    }
}

impl Default for EffectCounter {
    /// A counter at zero.
    fn default() -> (r: Self) {
        EffectCounter::new()
    }
}

impl Clone for EffectCounter {
    /// A separate counter starting at this one's count.
    fn clone(&self) -> (r: Self) {
        EffectCounter { count: std::sync::atomic::AtomicUsize::new(self.count()) }
    }
}

/// `f`, counting each call on `counter` before making it.
pub fn counting_effect<'a, V, W, E, F>(counter: &'a EffectCounter, f: F) -> (r: impl Fn(&V) -> Result<W, E> + 'a)
    where
        F: Fn(&V) -> Result<W, E> + 'a,
        V: 'a,
    requires
        forall|v: &V| #[trigger] f.requires((v,)),
    ensures
        forall|v: &V| #[trigger] r.requires((v,)),
        forall|v: &V, out: Result<W, E>| #[trigger] r.ensures((v,), out) ==> f.ensures((v,), out),
{
    move |v: &V| -> (out: Result<W, E>)
        requires
            f.requires((v,)),
        ensures
            f.ensures((v,), out),
        {
            counter.increment();
            f(v)
        }
}

} // verus!
