# foliom_core

The core of Foliom, a local index over a folder of Logseq-style markdown
notes, written in Verus: the code states its behaviour in `requires` /
`ensures` contracts and Verus proves them.

## Layout

- `src/` — the verified library.
  - `parser/` — the block segmenter (bullets, continuation lines,
    properties, drawers, fences) and the reference grammar
    (`[[page]]`, `#tag`, `#[[tag]]`).
  - `mutation/` — byte-range splices of a file, and the outline operations
    (indent, outdent, move, split, merge, delete, restore) with the laws
    that each operation's returned inverse undoes it on a well-formed
    outline (a move of the page prelude excepted).
  - `indexer/` — page names from file paths, and the decisions of a
    reindex pass (which rows to write, which files changed, which are gone).
  - `rename/` — page-name validation, backlink discovery, the rename
    journal and the replay of its ops.
  - `scanner/` — the ignore rules, the `:hidden` list of `config.edn`, and
    the filters of the folder walk.
  - `inventory.rs`, `query.rs`, `path.rs`, `storage.rs`, `text.rs`.
- `tests/` — the test suite, run against the compiled library.
- `app/` — the parts that touch the disk, the SQLite index, the clock or
  the environment; they call the library for every decision.

Calls into `blake3`, `unicode-normalization` and a few `std` functions are
made through small trusted wrappers whose contracts say what their
documentation promises.
