# log_replication_system

A replicated log in the style of Raft, verified with Verus.

- `src/` is the verified library:
  - `log_entry.rs`: log entries and commands;
  - `storage.rs`: a node's log (entries by id, term, last and commit index),
    modelled as a map from id to entry, together with the file writes that
    keep its data directory in step;
  - `peer_table.rs`: the per-peer tables a leader keeps and the set of votes a
    candidate counts;
  - `network.rs`: the messages, the length-prefixed framing they travel in,
    and what a client makes of a reply;
  - `replication.rs`: the replication state machine of a node (elections,
    votes, `AppendEntries`, heartbeats, commit by majority), each step
    specified over `ManagerView`;
  - `laws.rs`: properties proved across operations (one vote per term,
    through any run of steps; terms never decrease; a newer term clears the
    vote; stale and mismatching requests refused; commit only by majority;
    the commit index stays the highest committed id through commits and
    cuts; a lone node leads at
    once; reads after writes and queries after appends; the files, restored,
    giving back the log with its committed flags and metadata).
- `app/` is the program around it: command line, TCP sockets, timers, and
  the JSON and bincode encodings.
- `tests/` exercises the library on concrete values.
