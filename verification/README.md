# scarlet

The item machinery of the Scarlet language, written in Verus: an arena of
items (`environment`), what each item is (`definitions`, `item`), how items
are dereferenced (`deref`), what they depend on (`dependencies`, `dcc`), when
two items are equal (`equal`, `ecc`, `trim`, `equality_laws`), what holds of
them and how that is justified (`invariants`, `icc`, `justify`), how names are
looked up in scopes (`scopes`), what an item contains, directly or not
(`traversal`), and how items written in source are resolved into definitions
(`resolvable`, `resolve`, `from`, `builtins`). Queries with cycle detection
are in `query`, and small containers in `stack` and `substitutions`.

The functions of `src/` are verified against their contracts. One function
is trusted rather than verified: `hash_key` in `query`, which feeds a query's
target to the standard library's hasher. The tests under `tests/` run the
library on concrete items.
