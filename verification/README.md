# buildsmith

A content-hashed, DAG-based build system. Tasks are declared in a TOML file
with a command, input and output paths (a directory stands for the files
under it) and dependencies; each task's hash is made from its command, the
hashes of its input files and the hashes of its dependencies, and a task
whose hash the cache holds is restored instead of run.

## Layout

- `src/` is the verified library (Verus):
  - `config/`: tasks by name, the configuration, and the check that every
    dependency names a task.
  - `dag/`: the task graph over `petgraph` (with cycle detection), the
    graph properties the proofs use (walks, cycles, topological orders,
    levels), and the level-by-level schedule of all tasks or of one task and
    what it depends on.
  - `engine/`: SHA-256 and hex over `sha2` and `hex`; file, command and task
    hashes; the scheduler of a build run (what starts, what is skipped, when
    the run stops); the hash chain behind `status` and `why`, and the
    proof that it gives the hashes a build gives; the result types.
  - `cache/`: the text formats of the cache (manifests and the table of
    the hash last built for each task) and the layout of cache entries.
  - `report.rs`: what the command line prints (labels, counts, graph lines,
    listing order).
  - `watch.rs`: which file changes count, and when a burst of changes has
    settled.
- `app/` is the program around it: the command line, reading the
  configuration file, the cache directory, running commands, and watching
  files.
- `tests/` runs the library on concrete values.
