# keyhammer, verified

Typo-tolerant top-k search over a compact trie, with keyboard-aware edit
costs, written in Verus: the library's functions carry `requires`/`ensures`
contracts that the verifier proves.

## Layout

- `src/` — the verified library (crate name `lib`).
  - `cost` — keyboard layouts, adjacency and the fixed-point edit costs.
  - `text` — UTF-8 decoding and the case and diacritic normaliser.
  - `trie` — the compact trie: construction, accessors, subtree signatures.
  - `shape` — what a built trie's layout guarantees: one parent per node,
    distinct paths, subtree maxima, and what a build keeps of its input.
  - `normal_form` — the normaliser's fixed point: normalising twice changes
    nothing.
  - `search` — best-first top-k search (exact and prefix) over banded rows of
    the weighted optimal-string-alignment matrix.
  - `highlight` — tracebacks of a hit into match ranges of the source string.
  - `index` — the serialized index format: writer, validating reader, CRC-32.
  - `order` — the lexicographic and entry orders used to sort terms.
  - `cgl` — the CGL-tree engine: altered strings, letter fingerprints, the
    typo-aware byte encoding, bounded edit distances and the candidate stage
    of its fuzzy index.
  - `legacy` — the earlier engine: byte fingerprints, columnar scan, query
    operators, accent stripping, function inversion and the candidate stage
    of its fuzzy index.
- `tests/` — tests of the library, run against the compiled crate.
- `app/` — the ranking layer in plain Rust: typo scores and the fuzzy and
  document indexes that rank the library's candidates with floating-point
  weights.
