# ufl

Search kernels for discovering exact algebraic structure, with their
contracts proved by Verus.

## Layout

- `src/` — the verified library.
  - `prng` — the SplitMix64 stream every search draws from.
  - `flipgraph` — integer matrix-multiplication schemes, the flip move,
    the reduction to fixpoint, and the seeded flip-graph walk.
  - `proposer`, `predicate`, `engine` — the blind genetic proposer over
    ternary genomes, the rank-decomposition predicate and its residual, and
    the discovery loop.
  - `blade` — the G(3,0,0) blade product table and the rule it follows.
  - `eml` — the EML expression tree with iterative equality and copy.
  - `geo`, `grade`, `typing`, `render`, `memetic` — the geometric AST, grade
    sets and contexts, the grade-type checker, the renderer, and the tree-GA.
- `tests/` — the test suite (ordinary Rust, run against the compiled library).
- `app/` — the parts that compute with floating point or call the `garust`
  kernel: evaluation, fitness, the MLP baseline and the witness measurements.
