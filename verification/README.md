# runner

A deterministic, goal-driven agent loop over a task tree, with its
evaluation harness, dashboard feed and prompt lab.

- `src/` is the verified library (Verus): tree selection and state updates,
  the contract checks on an agent's tree edits, child id allocation, prompt
  budgeting, the goal document's frontmatter, git status parsing, the step
  and loop decisions, case validation and judging, and the dashboard's change
  feed. `src/laws.rs` states the properties that hold across operations.
- `app/` is the command-line program around it: files under `.runner/`,
  `git` and agent subprocesses, the HTTP dashboard and the file watcher.
- `tests/` exercises the library through its public API.
