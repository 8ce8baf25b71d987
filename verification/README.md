# mt_dom

A virtual dom: trees of elements and leaves, and a diffing algorithm that returns the patches
which turn one tree into another. The library is written in Verus; every function under `src/`
carries a contract that Verus proves, except four small wrappers around outside crates, whose
contracts are trusted, not proved: `name_index_new`, `name_index_get` and `name_index_insert`
(calls of the `indexmap` crate, in `src/node/attribute.rs`) and `longest_increasing` (a call of
the `longest-increasing-subsequence` crate, in `src/diff_lis.rs`).

Layout:

- `src/node.rs`, `src/node/`: nodes, elements and attributes, with their abstract views;
  grouping and merging of attributes with the same name.
- `src/patch.rs`, `src/patch/`: the patches and their abstract model; tree paths.
- `src/diff.rs`, `src/diff/`: the diff of two trees, the forward keyed matching, the
  reconciliation of keyed children, and the laws of the diff (`src/diff/laws.rs`,
  `src/diff/reorder.rs`).
- `src/diff_lis.rs`: the keyed diff of children along a longest increasing subsequence, the one
  that the diff of two trees uses for keyed children.
- `src/apply_patches.rs`, `src/apply_patches/`: applying patches to a tree, each at the node
  that its path leads to, so that a tree can be checked to become the one the patches were made
  for (`apply_patches`, against the model `apply_all`), with the law that applying the diff of
  two trees to the first gives the second wherever the patches, applied one after the other,
  can come back to it (`lemma_apply_diff` in `src/apply_patches/round_trip.rs`, with the
  attributes that come back in `src/apply_patches/attr_round_trip.rs`); finding, removing and
  inserting nodes by their index in a depth first traversal.
- `src/zipper.rs`: a zipper over a tree.
- `app/`: what stands outside the verified library: callbacks, and an error type with `Display`.

The grouping of attributes by name keeps its groups in a `Vec` of (name, group) pairs, in the
order in which the names first appear, and finds a name's group through an `IndexMap` from names
to positions; the merging of attributes does the same. A group holds references into the
attributes it was made from, and a map of such references would carry their lifetime into the
trusted model of the map's contents, which is written over plain values only.
