# pattern_core

A verified library of patterns (a value decorating a sequence of sub-patterns) and of
graph views built on them, written in Verus. Contracts are stated over mathematical
models of the data (`Seq`, `Set`, `Map` and the `Tree` view of a pattern), and Verus
proves the code against them. Where a result rests on how a value type clones or
compares (`Clone`, `PartialEq`), the contract states it for types whose clones are
equal to the value cloned and whose `==` follows its specification. Only
`para_graph_fixed` asks it of its callers, since its condition for ending is stated
over what the rounds compute. The call counter in `test_utils` keeps
its count in an atomic, whose value is not specified.

Layout:

- `src/pattern/`: construction, queries, folds, maps, traversals, the comonad
  operations, matching, validation, structural analysis, unfolding, the text layout
  of the display and debug forms; `laws.rs` holds the laws (functor, comonad,
  traversable, matching, queries by predicate).
- `src/pattern_graph.rs`, `src/reconcile.rs`: building a graph of classified
  patterns, and reconciling patterns that share an identity.
- `src/graph/`: classification, the graph query interface, views, transformations
  (map, filter, fold, paramorphism, unfold) and algorithms (traversals, paths,
  components, topological order), and a standard graph.
- `src/test_utils/`: helpers for comparing patterns and checking results.
- `app/`: what the verified library cannot hold: subjects whose property values may
  be floating-point, the values' own texts for the text forms, weighted algorithms on
  floating-point costs, and serialised test data.
- `tests/`: tests of the library on concrete values.
