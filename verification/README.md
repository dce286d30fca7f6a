# policy_engine

The decision logic of a C++ formatting engine. Policies propose edits to a source file; the library
decides which of the proposals survive, how they are merged into one text, when a semantic contract
has been broken, and what a retry may touch. The library is verified with Verus, but for seventeen
small wrappers: they call `smallvec`, `tree-sitter` with its grammar of C++, `rustc-hash`,
`clang-sys` and three functions of `std`, and their contracts are trusted. Each says so in its
comment.

- `src/`: the verified library.
  - `conflict_graph`, `conflict_search`, `conflict_solver`: which candidate edits are accepted.
  - `convergence`, `conflict_detector`: how claims on lines are settled between policies.
  - `semantic_contract`, `post_check`, `accuracy_gate`: what an edited file is held to.
  - `pipeline`, `coordinator`, `format_run`: the stages of a policy, and of the run over a file.
  - `proposer`, `edit_guard`, `suppression`: how edits become candidates, and which are held back.
  - `fuzzy_inference`, `certainty_filter`, `context_tracker`, `retry_optimizer`: limits and what is
    learned from earlier runs.
  - `syntax`, `fingerprints`: what is read of syntax trees, and the numbers that stand for texts.
  - `text`, `lines`, `line_text`, `names`, `ranges`, `small_lists`: strings, sets and lists.
- `tests/`: tests against the compiled library.
- `app/`: parsing, persistence, floating-point estimators, and the loops that run policies.

Rates, confidences and weights are fixed-point numbers in billionths, so that equal
amounts are equal. A quotient is rounded, and is off by less than one billionth.
