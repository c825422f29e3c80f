# ksplang_opt

Verified pieces of an optimizing compiler for ksplang, a stack language whose
programs are sequences of named instructions.

- `src/ranges.rs` — interval arithmetic on `i64`/`u64` ranges (saturating
  sum, difference, product, union, intersection, absolute value), each proved
  to contain every result of the operation on members of its arguments, and
  `eval_combi_u64`, which evaluates a function over a small box of pairs.
- `src/cfg.rs` — the control-flow graph the analyses read: blocks, jumps,
  instructions, values with their ranges, and the abstract stack.
- `src/analyzer.rs` — the depth-first postorder of the reachable blocks, a
  round-based fixed-point data-flow solver, and a bound on the number of
  source instructions one run executes.
- `src/cheats.rs` — recognition of well-known instruction sequences (pushing
  constants, duplicating or negating the top of the stack) and their effect
  on the graph, compiled in one step.
- `src/implications.rs` — simplifying a branch condition under another that
  is known to hold (proved sound for every valuation that satisfies the
  assumption and the graph's ranges and `Min`/`Max` instructions, divisions
  by zero included), and the exact list of simpler facts a condition implies.
- `src/hoisting.rs` — moving the instructions that every successor of a block
  computes alike up into that block, round by round, with the merged output
  value read wherever the moved ones were; a moved instruction that always
  leaves the compiled code ends the block and drops what followed it.
- `src/down_hoisting.rs` — moving a computation that every block jumping
  into a block performs alike down into that block, passing its operands:
  it happens exactly when the candidate search finds one (up to the limit of
  value ids), every block jumping in loses instructions, and every jump in
  still passes one value per parameter.
- `src/direction.rs` — the data-flow solver gives the same states whether it
  visits the blocks in postorder or in reverse postorder.
- `src/ops.rs` — the instructions and the parser of program text.
- `src/text.rs` — rendering of numbers and ranges, and bijective base-26
  letter numerals.
- `src/seqs.rs`, `src/convert.rs`, `src/fuzz.rs` — small helpers.
- `src/stdlib.rs` — the contracts assumed of the standard-library and
  `rustc-hash` functions that the library calls.
- `app/` — `Display` for the renderers and the type-keyed annotation store,
  which rely on `std::fmt` and `dyn Any`.
