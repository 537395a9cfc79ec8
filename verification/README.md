# chash

A table of employee records keyed by the Jenkins one-at-a-time hash of each
name, driven by a small command language (`insert`, `delete`, `update`,
`search`, `print`). The library under `src/` (table, hash, command
parsing, command outcomes, log text) is specified and proved in Verus; the
program under `app/` (threads, turn-taking, the logged lock, files) is not.

- `src/hash.rs` — records and the hash.
- `src/table.rs` — the table, kept in ascending order of hash, and its laws.
- `src/text.rs` — lines, trimming, splitting and number parsing.
- `src/commands.rs` — the command file format and the stable ordering by priority.
- `src/dispatch.rs` — what one command logs, does and prints.
- `src/logger.rs` — the lines of the run's log.
- `src/decimal.rs` — decimal rendering of integers.
- `app/main.rs` — the program: file I/O, one thread per command taking turns
  by priority, the logged reader-writer lock and the log file.
