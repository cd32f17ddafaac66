# state_game

A moddable state game engine, verified with Verus.

## Layout

- `src/` — the verified library.
  - `virtual_machine/` — the instruction set, the static instruction
    verifier (`verify` is stated over the pass `check_prefix`), the machine
    (`step` is stated over `step_result` and `step_events`), and `safety`,
    which proves what an accepted stream buys at run time
    (`lemma_verified_step_is_safe`, `lemma_verified_run_is_safe`).
  - `runtime_task/` — the task variant of the machine, whose slots are a
    vector: writing a slot overwrites it, or makes a new slot at the end.
  - `compiler/` — the tokenizer (stated over `lexes` and `tokenizes`) and the
    recursive-descent parser (stated over the grammar relations
    `reads_expression`, `reads_statement`, `reads_program`).
  - `persistent_vector.rs` — a persistent vector over a balanced tree, viewed
    as a sequence.
  - `policy_graph.rs` — the declarative policy graph: Kleene logic, cached
    evaluation with a diff log, rollback, and invalidation. Evaluation is
    stated over `replay`, given what registered functions and custom
    operators answered (recorded in the evaluation's `trace`); the cache
    keeps its history (`replays_history`), and re-evaluation after a binding
    changes agrees with a fresh evaluation
    (`lemma_reeval_is_fresh_evaluation`).
  - `bound.rs`, `helper.rs`, `mod_loader.rs`, `mod_metadata.rs` — the
    engine's logic values and small combinators, and mod metadata.
- `app/` — the host side: run loops over `step`, the logger channel, the
  shared global memory, float arithmetic, and the engine traits that carry
  floats.
- `tests/` — tests of the library.
