# raw-discovery

`raw_discovery` discovers recursive, source-bounded blocks under a sealed
token profile. It has no unbounded syntax tree, language recognizer or
semantic classification. Every function of the library is verified with Verus
against a contract stated over mathematical models of the source text; the one
trusted item is a wrapper around std's `String::push`.

## Layout

- `src/profile.rs`: canonical token-profile data, trigger definitions and
  active sets, and sealing, which refuses malformed triggers and any two
  triggers that could tie. A sealed profile's identity is its data itself:
  two identities agree exactly when the profile data agree; no content hash
  is computed.
- `src/boundary.rs`: the `BoundaryReader` cursor, longest-match selection,
  configured contexts and transitions, and outside-in discovery of delimited
  boundaries, with the models `trigger_match`, `longest_from` and
  `scan_level` that the contracts speak of.
- `src/exclusivity.rs`: the law that a sealed active set never has its
  longest match refused as a tie.
- `src/block_tree.rs`: block trees built from configured delimiters and from
  cue-to-termination rules, their sealing, and their nesting laws.
- `src/block.rs`, `src/error.rs`: the portable `Block` values, atom case
  predicates, and recognition error data.
- `src/text.rs`, `src/order.rs`, `src/identifier_order.rs`: character and
  byte-offset primitives, canonical ordering of rule data, and the order of
  revisions and identifiers.
- `tests/`: scenarios on concrete values, run against the compiled library.
- `app/`: displayable twins of the library's error enums for callers that
  need `std::error::Error`.

The laws are public proof functions whose names begin with `lemma_`, such as
`lemma_delimited_nesting`, `lemma_delimited_shape`, `lemma_block_tree_nesting`,
`lemma_prefix_order_is_irrelevant`,
`lemma_cue_tree_nesting`, `lemma_longest_match_is_maximal` and
`lemma_sealed_longest_match_never_ties`.
