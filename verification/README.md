# raft

A small Raft-replicated key-value store, written in Verus.

- `src/` is the verified library:
  - `common` — keys, values and client commands;
  - `log` — the replicated log (`RaftLog`) and the rule by which incoming
    entries are merged into it;
  - `storage` — snapshots, the `StateMachine` trait and the in-memory
    key-value machine, whose store is a map of byte strings;
  - `net` — the messages nodes and clients exchange;
  - `node` — a node's decisions: answering vote and append requests, client
    commands, elections, replication bookkeeping and compaction.
- `app/` is the program around it: the bincode wire format (serde copies of
  the message types), TCP transport, and the async event loop that performs
  the network work and hands every decision to the library.
- `tests/` exercises the library on concrete values.
