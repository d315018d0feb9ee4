# ticket_rs

A ticket tracker whose tickets are markdown files with a YAML front matter,
kept in a `.tickets/` directory next to the code. The library is written in
Verus: every function in `src/` carries a contract, and the laws of the file
format and of the commands are proved as proof functions.

## Layout

- `src/text.rs`: the character-level text model (`lines`, `trim`, `join`, ...).
- `src/types.rs`, `src/id.rs`: ticket types, ids, id resolution.
- `src/frontmatter.rs`, `src/body.rs`, `src/render.rs`, `src/storage.rs`:
  reading and writing ticket files.
- `src/edit.rs`, `src/store.rs`: editing files in place (set a field, add a
  note, migrate) over an in-memory snapshot of the ticket directory.
- `src/graph.rs`: the dependency graph: readiness, blockers, cycles, subtree
  depths, the dependency tree.
- `src/order.rs`, `src/json.rs`, `src/display.rs`, `src/commands.rs`: sorting,
  JSON lines, the text the commands print, and the command logic.
- `src/roundtrip.rs`, `src/body_read.rs`, `src/update.rs`: what a written file
  reads back, after it was written, after a field was set and after a note
  was added.
- `app/main.rs`: the `tk` command line: arguments, the file system, the clock.
- `tests/`: tests of the library.
