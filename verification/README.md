# shitview

A map of a project folder: a bounded snapshot of the folder tree, the
decision logic of an indexer that keeps a database of it current, and the
structure of a zoomable board that draws it. This crate is the verified
core of that tool, written in Verus; the indexer's database and its
running service are not part of it.

## Layout

- `src/` — the library, every function checked by Verus against its
  contract:
  - `text` — decimal/hex rendering, path display forms, character order;
  - `models` — snapshot nodes, issues, totals and their JSON form;
  - `json_read` — a reader of JSON text and the proof that a snapshot's
    JSON reads back as its fields;
  - `scanner` — the bounded depth-first scan as a session that asks its
    caller for one file-system fact at a time;
  - `layout` — keys of saved node positions and the position store;
  - `indexer` — indexer options, phases, the database file name, the scan
    scheduler, per-directory results, ignore files and their verdicts, and
    watcher changes;
  - `scene` — the structure of the board: layout order, parents, frames,
    links, levels, labels, synthetic scenes;
  - `display` — status lines, colours and pixel blending;
  - `storage` — index rows and the storage benchmark's synthetic rows;
  - `cli` — the command lines of the snapshot tool and the benchmark.
- `tests/` — tests of the library on concrete values.
- `app/` — the programs around it: the snapshot tool, the storage
  benchmark, file-system access for the indexer's directory scans, the
  layout file, and the floating-point geometry of the board.

## Collections

The ignored names of a scan and the saved layout positions are kept in
vectors, with no name or key twice (the layout store states this as its
type invariant), rather than in `HashSet` and `HashMap`. vstd describes
the contents of its hash collections only for key types it knows to hash
consistently, integers and booleans; for `String` keys that fact would
have to be assumed, and nothing about membership could be proved
without it.
