# weighted_atom_sweep

A sweep over a trie of weighted atoms: traversal engines sample atom positions,
and operations transform the trie at each sampled position. The library is
written in Verus and its functions are proved against their contracts.

Layout:

- `src/trie.rs` — `PathTrie`, a finite map from byte paths to values, with the
  path queries a zipper makes (does a path exist, which children does it have).
- `src/tag.rs` — the mm2 item encoding: one tag byte per item.
- `src/matching.rs` — the specification of pattern matching: what the walk of an
  mm2 pattern along the trie counts, and the proof that a ground expression
  matches exactly its own path.
- `src/instances.rs` — what a pattern's instances are (a new variable stands
  for one whole item, a reference for the bytes of its variable's item), and
  the proof that the match count is the number of instances the trie holds.
- `src/sexpr_operation.rs` — `SExprOperation`: add an expression's path, remove
  it, or count its matches; the matcher is proved to count what
  `matching.rs` specifies.
- `src/random_walk.rs` — `RandomWalk`, which samples a stored path with
  probability proportional to its weight, with the proof that every stored path
  gets an interval of numbers as long as its weight.
- `src/cpq.rs` — `ChunkedPQTraverse`, which draws one of the `chunk` heaviest
  atoms (those with fewer than `chunk` heavier atoms).
- `src/operation.rs`, `src/traversal.rs`, `src/sweep.rs`, `src/map.rs`,
  `src/new_eng_op.rs` — the sweep's processes, their operations and engines.
- `app/lib.rs` — the threads that run a sweep, and the operations and engines
  given by function pointers.
