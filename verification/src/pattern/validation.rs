use vstd::prelude::*;

use crate::pattern::{lemma_pattern_view, Pattern};
use crate::text::{self, decimal};
use crate::tree::{self, Tree};

verus! {

/// Limits that [`Pattern::validate`] checks a pattern against.
#[derive(Debug, Clone)]
pub struct ValidationRules {
    /// Deepest level a node may sit at (`None`: no limit).
    pub max_depth: Option<usize>,
    /// Most elements a single node may have (`None`: no limit).
    pub max_elements: Option<usize>,
    /// Field names reserved for value-specific checks (not checked on structure).
    pub required_fields: Vec<String>,
}

impl Default for ValidationRules {
    /// No limits and no required fields.
    fn default() -> (r: Self)
        ensures
            r.max_depth is None,
            r.max_elements is None,
            r.required_fields@.len() == 0,
    {
        ValidationRules { max_depth: None, max_elements: None, required_fields: Vec::new() }
    }
}

/// A broken rule: what was broken, which rule, and the path to the node.
#[derive(Debug, Clone, PartialEq, Eq)]
pub struct ValidationError {
    /// Human-readable description.
    pub message: String,
    /// The rule's name: `max_depth` or `max_elements`.
    pub rule_violated: String,
    /// Path from the root to the node: `"elements"` and the index, per step.
    pub location: Vec<String>,
}

/// The texts of a sequence of strings.
pub open spec fn texts(s: Seq<String>) -> Seq<Seq<char>> {
    s.map_values(|x: String| x@)
}

/// A violation as plain text: message, rule name and location.
pub open spec fn error_text(e: ValidationError) -> (Seq<char>, Seq<char>, Seq<Seq<char>>) {
    (e.message@, e.rule_violated@, texts(e.location@))
}

/// Message for a node deeper than allowed.
pub open spec fn depth_message(depth: nat, max: nat) -> Seq<char> {
    "Pattern depth "@ + decimal(depth) + " exceeds maximum allowed depth "@ + decimal(max)
}

/// Message for a node with more elements than allowed.
pub open spec fn elements_message(count: nat, max: nat) -> Seq<char> {
    "Pattern has "@ + decimal(count) + " elements, exceeding maximum allowed "@ + decimal(max)
}

/// The rule that the root of `t` itself breaks, at `depth` and `loc`, if any; the
/// depth rule is checked first.
pub open spec fn node_violation<V>(
    t: Tree<V>,
    max_depth: Option<usize>,
    max_elements: Option<usize>,
    depth: nat,
    loc: Seq<Seq<char>>,
) -> Option<(Seq<char>, Seq<char>, Seq<Seq<char>>)> {
    if max_depth is Some && depth > max_depth->0 {
        Some((depth_message(depth, max_depth->0 as nat), "max_depth"@, loc))
    } else if max_elements is Some && t.children.len() > max_elements->0 {
        Some((elements_message(t.children.len(), max_elements->0 as nat), "max_elements"@, loc))
    } else {
        None
    }
}

/// The first broken rule in pre-order within `t`, whose root sits at `depth` and `loc`.
pub open spec fn tree_violation<V>(
    t: Tree<V>,
    max_depth: Option<usize>,
    max_elements: Option<usize>,
    depth: nat,
    loc: Seq<Seq<char>>,
) -> Option<(Seq<char>, Seq<char>, Seq<Seq<char>>)>
    decreases t,
{
    match node_violation(t, max_depth, max_elements, depth, loc) {
        Some(v) => Some(v),
        None => forest_violation(t.children, max_depth, max_elements, depth + 1, loc),
    }
}

/// The first broken rule in pre-order within the children `s` of a node at `loc`,
/// the children sitting at `depth`.
pub open spec fn forest_violation<V>(
    s: Seq<Tree<V>>,
    max_depth: Option<usize>,
    max_elements: Option<usize>,
    depth: nat,
    loc: Seq<Seq<char>>,
) -> Option<(Seq<char>, Seq<char>, Seq<Seq<char>>)>
    decreases s,
{
    if s.len() == 0 {
        None
    } else {
        match forest_violation(s.drop_last(), max_depth, max_elements, depth, loc) {
            Some(v) => Some(v),
            None => tree_violation(
                s.last(),
                max_depth,
                max_elements,
                depth,
                loc + seq!["elements"@, decimal((s.len() - 1) as nat)],
            ),
        }
    }
}

/// A copy of a sequence of strings.
fn copied(v: &Vec<String>) -> (r: Vec<String>)
    ensures
        r@ == v@,
{
    let mut r: Vec<String> = Vec::new();
    let mut i: usize = 0;
    while i < v.len()
        invariant
            i <= v.len(),
            r@ == v@.take(i as int),
        decreases v.len() - i,
    {
        r.push(v[i].clone());
        proof {
            tree::lemma_take_step(v@, i as int);
        }
        i = i + 1;
    }
    proof {
        tree::lemma_take_full(v@);
    }
    r
}

impl<V> Pattern<V> {
    /// Checks the pattern against `rules`: the first node in pre-order (root, then
    /// elements left to right) that sits deeper than `max_depth` or has more elements
    /// than `max_elements` is reported, the depth rule first.
    pub fn validate(&self, rules: &ValidationRules) -> (r: Result<(), ValidationError>)
        requires
            tree::tree_size(self@) <= usize::MAX,
        ensures
            match r {
                Ok(()) => tree_violation(self@, rules.max_depth, rules.max_elements, 0, seq![])
                    is None,
                Err(e) => tree_violation(self@, rules.max_depth, rules.max_elements, 0, seq![])
                    == Some(error_text(e)),
            },
    {
        proof {
            tree::lemma_depth_lt_size(self@);
        }
        let mut location: Vec<String> = Vec::new();
        proof {
            assert(texts(location@) =~= Seq::<Seq<char>>::empty());
        }
        self.validate_recursive(rules, 0, &mut location)
    }

    fn validate_recursive(
        &self,
        rules: &ValidationRules,
        current_depth: usize,
        location: &mut Vec<String>,
    ) -> (r: Result<(), ValidationError>)
        requires
            current_depth + tree::tree_depth(self@) <= usize::MAX,
        ensures
            final(location)@ == old(location)@,
            match r {
                Ok(()) => tree_violation(
                    self@,
                    rules.max_depth,
                    rules.max_elements,
                    current_depth as nat,
                    texts(old(location)@),
                ) is None,
                Err(e) => tree_violation(
                    self@,
                    rules.max_depth,
                    rules.max_elements,
                    current_depth as nat,
                    texts(old(location)@),
                ) == Some(error_text(e)),
            },
        decreases self,
    {
        proof {
            lemma_pattern_view(*self);
        }
        let ghost loc = texts(location@);
        if let Some(max_depth) = rules.max_depth {
            if current_depth > max_depth {
                let message = text::joined(
                    text::joined(
                        text::joined(text::owned("Pattern depth "), text::usize_text(current_depth).as_str()),
                        " exceeds maximum allowed depth ",
                    ),
                    text::usize_text(max_depth).as_str(),
                );
                let e = ValidationError {
                    message,
                    rule_violated: text::owned("max_depth"),
                    location: copied(location),
                };
                return Err(e);
            }
        }
        if let Some(max_elements) = rules.max_elements {
            if self.elements.len() > max_elements {
                let message = text::joined(
                    text::joined(
                        text::joined(text::owned("Pattern has "), text::usize_text(self.elements.len()).as_str()),
                        " elements, exceeding maximum allowed ",
                    ),
                    text::usize_text(max_elements).as_str(),
                );
                let e = ValidationError {
                    message,
                    rule_violated: text::owned("max_elements"),
                    location: copied(location),
                };
                return Err(e);
            }
        }
        assert(node_violation(self@, rules.max_depth, rules.max_elements, current_depth as nat, loc) is None);
        let ghost children = self@.children;
        let mut i: usize = 0;
        while i < self.elements.len()
            invariant
                i <= self.elements.len(),
                children == self@.children,
                children.len() == self.elements.len(),
                forall|k: int| 0 <= k < self.elements.len() ==> #[trigger] children[k] == self.elements@[k]@,
                current_depth + tree::tree_depth(self@) <= usize::MAX,
                tree::tree_depth(self@) == (if children.len() == 0 { 0 } else { 1 + tree::forest_depth(children) }),
                location@ == old(location)@,
                loc == texts(old(location)@),
                node_violation(self@, rules.max_depth, rules.max_elements, current_depth as nat, loc) is None,
                forest_violation(
                    children.take(i as int),
                    rules.max_depth,
                    rules.max_elements,
                    (current_depth + 1) as nat,
                    loc,
                ) is None,
            decreases self.elements.len() - i,
        {
            proof {
                tree::lemma_forest_depth_bound(children, i as int);
                tree::lemma_take_step(children, i as int);
                assert(children.take(i + 1).drop_last() =~= children.take(i as int));
            }
            let ghost before = location@;
            location.push(text::owned("elements"));
            location.push(text::usize_text(i));
            proof {
                assert(texts(location@) =~= loc + seq!["elements"@, decimal(i as nat)]);
            }
            let sub = self.elements[i].validate_recursive(rules, current_depth + 1, location);
            location.pop();
            location.pop();
            proof {
                assert(location@ =~= before);
            }
            match sub {
                Ok(()) => {},
                Err(e) => {
                    proof {
                        assert(tree_violation(self@, rules.max_depth, rules.max_elements, current_depth as nat, loc)
                            == forest_violation(children, rules.max_depth, rules.max_elements, (current_depth + 1) as nat, loc));
                        lemma_forest_violation_prefix(children, rules.max_depth, rules.max_elements, (current_depth + 1) as nat, loc, i as int + 1);
                    }
                    return Err(e);
                },
            }
            i = i + 1;
        }
        proof {
            tree::lemma_take_full(children);
        }
        Ok(())
    }
}

/// Once a prefix of the children holds a violation, the whole sequence reports it.
pub proof fn lemma_forest_violation_prefix<V>(
    s: Seq<Tree<V>>,
    max_depth: Option<usize>,
    max_elements: Option<usize>,
    depth: nat,
    loc: Seq<Seq<char>>,
    n: int,
)
    requires
        0 <= n <= s.len(),
        forest_violation(s.take(n), max_depth, max_elements, depth, loc) is Some,
    ensures
        forest_violation(s, max_depth, max_elements, depth, loc) == forest_violation(
            s.take(n),
            max_depth,
            max_elements,
            depth,
            loc,
        ),
    decreases s.len() - n,
{
    if n == s.len() {
        assert(s.take(n) =~= s);
    } else {
        tree::lemma_take_step(s, n);
        assert(s.take(n + 1).drop_last() =~= s.take(n));
        lemma_forest_violation_prefix(s, max_depth, max_elements, depth, loc, n + 1);
    }
}

} // verus!
