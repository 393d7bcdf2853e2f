# hoatzin

A workflow execution engine. A workflow is a directed graph of nodes (native
functions or Python scripts) and edges; a run hands out the nodes whose
inputs have all finished, passes each node the outputs of its predecessors
by name, and follows a labelled edge only when its source's `__route__`
names the label. Nodes that no active edge reaches are skipped, and skips
carry on downstream. A node with an input that failed, or that was itself
blocked, is blocked: nothing downstream of a failure runs.

Layout:

- `src/` — the verified library: nodes and edges (`node`, `edge`), the
  workflow graph (`workflow`), workflow files (`template`), and the run's
  scheduler with its laws (`execution`).
- `app/` — the runner: command line, reading and parsing `.toml` files,
  running native functions and Python scripts on Tokio tasks.
- `tests/` — tests of the library.
