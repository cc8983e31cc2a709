# AdGraphDb

An embeddable property-graph database whose logic is verified with Verus.

A database is assembled from interchangeable layers: a storage that keeps what
is written, a cache in front of it, an engine that knows which nodes are
connected, and indexes by label and by property. Queries come in two languages
that are planned and run in the same way.

```
src/                 the verified library
  model/             nodes, edges, values, identifiers, errors
  ports/             what a storage, a cache, an engine, an algorithm must do
  adapters/          storages, caches, the engine, the indexes
  algorithms/        breadth first, depth first, shortest path
  query/             commands, planner, executor, the two languages
  transaction.rs     changes that take effect together
  database/          the assembled database and what holds of it as a whole
  server.rs          the line protocol
  console/           the commands of the console
  runbook.rs         synthetic data and reports for measurements
  float*.rs          doubles: rounding, comparison, reading and writing
tests/               tests of the library
app/                 files, sockets, threads and the command line
```

The central notion is `LayeredGraphDatabase::coherent`: storage, cache, engine
and indexes agree on one graph, `LayeredGraphDatabase::graph`. Every operation
keeps it, and its contract says what becomes of the graph. A storage that never
fails (`reliable`) makes every operation succeed that is not refused.

`src/database/laws.rs`, and the functions whose names start with `law_` in
other files, state what holds across operations: that a database opened again
holds the same graph, that a transaction that was not committed leaves no
trace, that a query gives the same answer whatever index serves it.

## Programs

The program in `app/` runs a demonstration, or with a first argument

- `cli` the console, on a file (`--db <path>`) or on a server (`--server <addr>`),
- `server` the server,
- `runbook` measurements at scale.
