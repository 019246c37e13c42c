# cmdsift

Runs a build command, waits for it to finish, and prints its output
classified into errors, warnings and other lines, with a full time-stamped
log written alongside.

## Layout

- `src/` — the verified library (Verus):
  - `text.rs` — character-sequence helpers: decimal formatting and parsing,
    Unicode trimming, splitting and joining, substring search.
  - `pattern.rs` — regular expressions through the `regex` crate.
  - `sanitize.rs` — removal of ANSI escape sequences and control characters.
  - `command.rs` — the completion marker and the wrapped shell command.
  - `classify.rs` — line classification, collection, tail of the output, and
    the structured result text.
  - `log.rs` — the incremental log buffer: complete lines only, handed out
    in batches that are cleaned as a whole, never the marker (raw or
    cleaned), each line stamped with the local time it is written.
  - `runner.rs` — the decisions of one build run (`BuildSession`, and
    `next_step` for when to stop waiting).
  - `cli.rs` — argument parsing, the log directory, the final report and the
    exit status.
- `app/main.rs` — the program: arguments, the child process, reader threads,
  sleeping, the log file and printing.
- `tests/` — tests of the library.
