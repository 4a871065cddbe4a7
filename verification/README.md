# loom_core

The core of diagram-loom, a desktop tool that keeps the deployment and connection
information of a system complete: a logical layer says which services there are and
who talks to whom, each environment says where they actually run, and lint reports
every place where an environment does not yet realise what the logical layer promises.

The library in `src/` is written in Verus. Every function carries a `requires` /
`ensures` contract over a mathematical model of the data (sequences, maps and views of
each type), and Verus proves the code against it.

## Layout

- `src/` — the verified library.
  - `logical`, `environment`, `id`, `slug`, `pattern`: the domain model and its names.
  - `lint`, `coverage`, `table`, `inventory`, `highlight`, `wiring`, `index`: the
    read-only views and checks over a project.
  - `edit`, `resource`, `batch`, `connect`, `cascade`, `history`, `tree`, `keyed`:
    changing a project, with undo and redo.
  - `importer`, `plan`: importing connections from a sheet, and previewing an import.
  - `diagrams`, `annotate`, `reconcile`: the diagram catalog and the comparison of a
    diagram with the model.
  - `repository`, `store`: the rules of the project folder and the file port.
  - `text`, `order`, `duplicate`: helpers, and the few calls into std that are trusted.
- `tests/` — tests of the library on concrete values.
- `app/` — ordinary Rust around the library: reading and writing the project folder
  (YAML), reading the bytes of CSV and xlsx files (the library parses them), and the
  serde copies of the model types.

Properties that relate several functions (undo restores, a failed edit changes
nothing, the coverage matrix has one cell per pair, migrating the diagram catalog twice
does nothing the second time, a slug is already its own slug, and others) are public proof functions next to the
functions they speak of.
