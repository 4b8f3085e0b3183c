# fabrico11y

A local-first evidence runtime: it admits versioned observations, corrections and
frontiers, keeps their partial order and provenance, replays corrections into a
deterministic state, and archives sealed batches in immutable, integrity-checked
segment files indexed by a SQLite catalog.

The library under `src/` is written in Verus and proved against its contracts:

- `text` — byte-ordered text sets, identifier and label grammars, hex and decimal text;
- `ordering` — RFC 3339 timestamps and the partial order over producer positions,
  logical clocks and explicit parentage, and the law that the order in which points
  are handed in does not change what the order answers;
- `schema` — the evidence envelopes and their validation rules;
- `replay` — correction replay, dispositions, semantic conflicts, and the laws that
  replay, and a refusal of a history, ignore record order and that corrections
  apply by a fixed precedence;
- `segment` — the container format, manifests, pruning bounds, dictionaries, and the
  law that a sealed batch reads back to the same records;
- `catalog` — the rows the catalog keeps and when stored rows agree with segments;
- `sdk` — the engine's decisions on admission, staging, recovery and validation,
  and the command line.

`app/` holds the `fabricctl` program: files, SQLite, JSON and the clock around the
library's decisions. `tests/` exercises the library on concrete values.
