# CheguersDB core

The storage layer of CheguersDB: nodes and edges with fixed schemas, kept in column chunks, edges
found through compressed sparse rows in both directions, and all of it written to the pages of one
data file.

- `src/` is the library, verified with Verus.
  - `types`, `config`, `error`, `command`, `catalog`, `adjacency`: the vocabulary.
  - `io`: little-endian encoding, pages, the database header.
  - `table`: columns, chunks of nodes, node groups, edge groups and their lists of rows.
  - `state`: tables and stores that are written to pages, and the database. The laws of these stand in
    `node_laws`, `node_records`, `edge_laws`, `edge_records`, `store_laws`, `database_laws`,
    `node_persistence`, `edge_persistence` and `recovery`.
  - `storage`: tables and stores that live in memory alone, with their laws in `node_laws`,
    `edge_laws` and `edge_records`.
  - `float`, `listing`, `ordered_map`, `search`, `text`, `utf8`: what the others are built on.
- `tests/` runs the library.
- `app/` puts it on a file: page I/O, floating-point values, `Display`, `Error` and `Iterator`.

Floating-point numbers are held by their bit patterns and compared as numbers. Functions that ask something of their input
which a caller may not know have a twin that tests it: `try_...` or `checked_...`, which return `None`.
The library reads and writes no file; `StorageManager::flush` returns the pages to append and the new
header page, and `StorageManager::open` takes the pages of a file and names the page where one is missing.
