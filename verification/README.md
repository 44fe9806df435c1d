# witnos

A living verification contract between a human and a coding agent, and the
fail-closed gate that decides when the agent may stop.

- `src/` is the verified library (Verus): the goal store and its write-time
  rules, the release condition, the armed marker a watched project carries,
  the decisions of the four hooks, the core's request handling, the terminal
  output fan-out, and the laws that hold across all of them (`src/laws.rs`
  and the `pub proof fn`s beside the functions they speak of).
- `tests/` runs the library on concrete values.
- `app/` is the `witnos` binary around it: files, environment, HTTP (axum on
  the core's side, ureq on the hooks' and the CLI's), the PTY daemon
  (portable-pty), and the JSON shapes of every type (serde).
