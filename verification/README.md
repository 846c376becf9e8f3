# mneme

A distributed in-memory cache. A core keeps the data in memory and serves
clients, keepers write it to disk and hand it back after a restart, and read
replicas follow a core.

- `src/` is the library, verified with Verus: the pool and its eviction, the
  timing wheels, the commands on strings, hashes, lists, sorted sets, counters
  and JSON documents, accounts, tokens and roles, slots and routing,
  replication and warm-up, the write-ahead log, snapshots, frames and the
  sessions of clients, keepers and replicas.
- `app/` is the program around it: listeners, TLS, consensus, files, metrics.
- `tests/` are tests of the library.

`mnemosyne.rs` is the node that the other modules come together in. Where a
module has a `law_...`, that is what holds across its functions; laws that span
modules are in `store_laws.rs`, `command_laws.rs`, `byte_laws.rs`,
`wheel_laws.rs` and `recovery_laws.rs`.

What the proofs rest on besides Verus is in the functions marked
`external_body`: cryptography, encodings, chance and the clock in `crypto.rs`,
the checksum of the log in `aoide.rs`, compression in `oneiros.rs` and UTF-8 in
`pattern.rs`.
