# pirc-server

The clustered core of the pirc IRC server, written in Verus: every
function in `src/` carries a contract that Verus proves.

## Layout

- `src/raft/`: Raft consensus as a state machine with no I/O.
  - `types`, `log`, `rpc`, `snapshot`, `state`: terms, indices, the
    replicated log (with compaction), messages, leader bookkeeping.
  - `node`, `replication`, `election`: the node's handlers. Each one
    updates the node and returns the storage writes and messages that
    the caller carries out; membership changes are proposed, committed
    and rolled back here.
  - `driver`: the decisions of the event loop (timers, inbound
    messages, proposals) as effects to carry out.
  - `membership`, `health`, `peer_map`, `node_set`: cluster members,
    peer health, peer addresses.
  - `state_machine`, `cluster_command`: the replicated IRC state
    (users, channels, servers) and the commands that change it.
  - `storage`, `file_storage`: storage errors, and the text formats of
    file-based storage (term, vote, snapshot metadata, log lines).
- `src/migration.rs`: where users live in the cluster, and which
  commands move them when a node goes down.
- `src/offline_store.rs`, `src/prekey_store.rs`: messages for offline
  users, and users' pre-key bundles.
- `src/oper.rs`, `src/keyed.rs`, `src/cluster_start.rs`: operator host
  masks, case-insensitive keyed maps, and how a server starts as a
  cluster member.
- `src/keepalive.rs`: the ping and ping-timeout decisions of a client
  connection.
- `app/`: the program around the library: the async event loop, file
  storage, serialization, timers and the demo binary.
- `tests/`: tests of the library.

Laws the library keeps are public proof functions (named `lemma_*`), next
to the functions they are about.
