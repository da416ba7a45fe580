# kansa-core

kansa turns a prose high-level design (markdown in a git repository) into a traceable
requirement inventory without editing the design. Every sentence of a tracked document is
classified as requirement-mapped, non-normative or question-flagged; what is left is residue,
and a document is done when its residue is zero.

The library in `src/` is written in Verus: each public function carries a `requires` /
`ensures` contract over mathematical models (`Seq`, `Map`, `int`, views of the data types),
and Verus proves the code against it.

## Layout

- `src/text.rs`, `src/order.rs` — string helpers and the code-point order used for sorting.
- `src/id.rs` — object ids (`type~slug~rev`), slugs and their validity rules.
- `src/segment.rs`, `src/blocks.rs` — sentence splitting and the markdown block segmenter
  (pulldown-cmark parses; the segmenter's state machine is verified).
- `src/snapshot.rs` — snapshots of a document with content-derived span ids.
- `src/model.rs` — requirements, questions, groups, marks, rounds and their histories.
- `src/coverage.rs` — per-document coverage meters and the repository roll-up.
- `src/reconcile.rs` — mapping classified spans of an old snapshot onto a new one.
- `src/classify.rs`, `src/groups.rs`, `src/ops.rs` — the operations: marking, requirement and
  question life cycles, rounds, groups, inventory, reconciliation, agent proposals.
- `src/agent.rs` — the pre-fill pipeline's prompt, output parsing and batching decisions.
- `src/accept.rs` — applying an accepted agent proposal (one, or every pending one): the
  change is made by `agent`, accepted by the user, and the groups it names are found or made.
- `src/repo.rs`, `src/store.rs` — repository naming rules and the state store's paths.
- `app/` — the command-line program: file and git I/O, YAML/JSON (serde), argument parsing
  and running the pre-fill agent (`KANSA_AGENT_CMD`) around the library.
- `tests/` — scenario tests of the library.

Laws that relate several operations (undoing a mark, idempotent attach and assign, round
trips of ids and of GitHub names, idempotent slugs, deterministic snapshots whose span ids
depend only on text and are distinct, tiling of sentences, one verdict per classified span)
are public proof functions named `law_*`.
