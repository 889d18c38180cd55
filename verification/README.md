# rgraph

A property-graph storage engine, verified with Verus.

- `src/graph`: node, edge and property records; adjacency lists and their compressed
  snapshots; the storage engine; the graph on top of it; reopening a graph from its pages.
- `src/index`: byte-ordered keys and value codes, the B+ tree with its bulk loader,
  cursors, defragmentation and page log, the indexes built on it, page latches.
- `src/storage`: slotted pages, page images, the write-ahead log's records.
- `src/io`: aligned buffers, the decisions of a file transfer, faults on purpose.
- `src/id.rs`, `src/error.rs`, `src/server.rs`: identifiers, exit codes, sizes of a server.
- `tests`: the library from outside.
- `app`: the command line, the files and the threads around the library.

Each operation states what it returns and what it changes over a mathematical model of its
type: a tree is a map from keys to values, a page a sequence of records, an engine its pages
and the maps that its indexes hold. The functions whose names begin with `law_` relate
several operations: what is stored is read back, encoded keys order as their fields do, a
snapshot agrees with the lists, a graph survives a restart.

What is taken on trust stands behind small functions with a doc comment that names the call:
`smallvec` for the storage of keys, `uuid` and `bincode` for identifiers, and two functions
of the standard library.
