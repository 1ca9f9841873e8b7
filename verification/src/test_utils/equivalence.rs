use vstd::prelude::*;

verus! {

/// The outcome of comparing two outputs.
#[derive(Debug, Clone, PartialEq, Eq)]
pub struct EquivalenceResult {
    pub equivalent: bool,
    pub differences: Vec<Difference>,
    pub comparison_method: ComparisonMethod,
}

/// One difference between two outputs.
#[derive(Debug, Clone, PartialEq, Eq)]
pub struct Difference {
    pub path: Vec<String>,
    pub expected: String,
    pub actual: String,
    pub description: String,
}

/// How two outputs are compared.
#[derive(Debug, Clone, Copy, PartialEq, Eq, Structural)]
pub enum ComparisonMethod {
    Direct,
    Json,
    TestData,
}

/// The result of comparing two outputs, given whether they are equal and their
/// descriptions: no difference when equal, otherwise one at the root.
pub fn equivalence_outcome(
    equivalent: bool,
    expected: String,
    actual: String,
    method: ComparisonMethod,
) -> (r: EquivalenceResult)
    ensures
        r.equivalent == equivalent,
        r.comparison_method == method,
        equivalent ==> r.differences@.len() == 0,
        !equivalent ==> r.differences@.len() == 1 && r.differences@[0].path@.len() == 1
            && r.differences@[0].path@[0]@ == "root"@ && r.differences@[0].expected@ == expected@
            && r.differences@[0].actual@ == actual@ && r.differences@[0].description@ == "Outputs differ"@,
{
    let mut differences: Vec<Difference> = Vec::new();
    if !equivalent {
        let mut path: Vec<String> = Vec::new();
        path.push(crate::text::owned("root"));
        differences.push(Difference { path, expected, actual, description: crate::text::owned("Outputs differ") });
    }
    EquivalenceResult { equivalent, differences, comparison_method: method }
}


/// The result of comparing against extracted test data, which is not supported yet:
/// never equivalent, with one difference at the test case.
pub fn test_data_outcome() -> (r: EquivalenceResult)
    ensures
        !r.equivalent,
        r.comparison_method == ComparisonMethod::TestData,
        r.differences@.len() == 1,
        r.differences@[0].path@.len() == 1,
        r.differences@[0].path@[0]@ == "test_case"@,
        r.differences@[0].expected@ == "test_case.expected"@,
        r.differences@[0].actual@ == "test_case.actual"@,
        r.differences@[0].description@ == "Test case comparison not yet implemented"@,
{
    let mut path: Vec<String> = Vec::new();
    path.push(crate::text::owned("test_case"));
    let mut differences: Vec<Difference> = Vec::new();
    differences.push(
        Difference {
            path,
            expected: crate::text::owned("test_case.expected"),
            actual: crate::text::owned("test_case.actual"),
            description: crate::text::owned("Test case comparison not yet implemented"),
        },
    );
    EquivalenceResult { equivalent: false, differences, comparison_method: ComparisonMethod::TestData }
}

} // verus!
