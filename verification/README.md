# georbf core

The verified core of a geological radial-basis-function modelling library,
written in Verus. Every function under `src/` carries a contract that Verus
proves; floating-point values are carried as IEEE-754 binary64 bit patterns
(`u64`), so the rules that read them are stated and proved exactly.

## Layout

- `src/binary64.rs`, `src/limbs.rs` — bit-pattern fields, order keys and
  exact negation of binary64 values; natural numbers as runs of 64-bit limbs.
- `src/binary64_sum.rs` — correctly rounded binary64 addition and
  subtraction, and an exact test of whether a quotient overflows.
- `src/dimension.rs`, `src/kernel*.rs`, `src/kernel/` — supported dimensions,
  kernel metadata, derivative capabilities and the polyharmonic, smooth and
  Wendland kernel families' metadata.
- `src/polynomial*` — the complete polynomial side space of a CPD order.
- `src/levels*` — stratigraphic level problems: record validation,
  membership equality, the order DAG, gauges and contrast.
- `src/problem_ir*` — provenance, semantic constraints and problems, sparse
  affine expressions, and the compilation of a semantic problem, through the
  caller's linearizations, into a solver-neutral canonical problem.
- `src/linear_constraints.rs` — linear constraints and the bounds they lower to.
- `src/solver*` — dense-solve policy, peak-memory estimate, rank
  classification, equality-system validation, and an exact dot-product
  accumulator with a single final rounding.
- `src/orientation*`, `src/local_trend.rs`, `src/model.rs`,
  `src/performance.rs`, `src/project.rs` — orientation metadata and the exact
  dyadic sign test, operational domains, evaluation capability decisions,
  batch memory plans and multi-field projects.
- `tests/` — tests of the library on concrete values.
- `app/` — `f64` adapters and the floating-point parts (polyharmonic
  evaluation, the fixed-order path check of level problems), and the loops
  that call a caller's linearizer for level and semantic compilation.
