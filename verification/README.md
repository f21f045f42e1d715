# kvs

A log-structured key/value store, verified with Verus.

`src/` is the verified library:

- `command.rs` – the commands (`KvCommand`) and responses (`KvResponse`).
- `codec.rs` – the record format of the log: a command's variant index and
  string fields in bincode's standard encoding.  bincode encodes and decodes
  the integers and strings; the library puts the fields together and proves
  that every record it writes reads back, whatever follows it.
- `log.rs` – the log as a sequence of records: how it is read, which contents
  it stands for, and which records survive a compaction.
- `index.rs` – the `DashMap` index from each live key to the offset of its
  latest record.
- `store.rs` – `KvStore`: the log in memory, the index, and compaction, with
  the laws that reopening a fully readable log gives back the store's
  contents and that compaction keeps them.
- `sled_engine.rs` – `KvSled`, the engine backed by a `sled` database.
- `engine.rs` – the `KvEngine` interface, `EngineType` and `Engine`.
- `protocol.rs` – framing of network messages, the server's answer to a
  command, and what a client prints.

`app/` holds the programs `kvs`, `kvs-client` and `kvs-server`: files,
sockets, threads, command lines and the serde forms of the types.
`tests/` exercises the library with the real outside crates.
