# raft_kv

A replicated key-value store: an embedded database and the Raft consensus algorithm, written and
verified in Verus.

- `src/kv` is the database: a copy-on-write B+tree in a file of pages, with checksums, two commit
  slots in the header, one writer and any number of readers that each see one commit.
- `src/raft` is a node of a cluster: elections, replication of the log, and the commands of clients.

The library does no input or output of its own. The database says which bytes are to be read from or
written to the file, and is given them with the next step. A node takes events and leaves behind what
is to be done: state to save, messages to send, commands to apply, clients to answer.

- `src/kv/snapshots.rs` states what transactions promise each other, and what a crash leaves.
- `src/kv/history.rs` states what that comes to over a whole run of readers and writers.
- `src/raft/laws.rs` states what holds of a node whatever happens to it.
- `app` reads and writes files, runs nodes as tasks, and holds a program that replicates a store over
  three nodes and kills their leader.
