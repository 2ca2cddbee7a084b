# raven

A verified library for dynamic graph clustering over a d-ary tree of leaves,
written in Verus.

- `src/` is the library. Every function carries a `requires`/`ensures`
  contract that Verus proves: the tree layout and its update order, the leaf
  tree with insertion, compact deletion and rebuilds, the node interner, the
  in-memory graph and index, union-find components, partition renumbering,
  neighbourhood packing, query setup checks and output assembly, and the
  per-trial scratch state.
- `tests/` runs the library on concrete inputs.
- `app/` holds what the verifier does not cover: floating-point scoring and
  consensus, and the small command-line entry point.

Random generators come from the `rand` crate; the few calls into it are
trusted wrappers in `src/rng.rs`, each with its contract stated beside it.
