# ide_server

A headless IDE server: it opens a project directory and serves it to browser
clients over a JSON WebSocket protocol (worktree listing, buffers,
pseudo-terminals, git summaries, agent threads).

- `src/` is the verified library, written in Verus: the wire model, the
  per-connection terminal state machine, the parsers for `git status` and
  `git ls-tree` output, the per-directory byte totals, the settings store,
  and the agent-thread bookkeeping. Every public function carries a contract
  that states its result over a mathematical model.
- `app/` is the program around it: argument handling, the WebSocket loop,
  process and pseudo-terminal I/O, and the editor and agent integrations.
- `tests/` runs the library on concrete inputs.
