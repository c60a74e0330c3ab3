# godworks_broker

A message broker for a partitioned, durable entity world. Workers, clients and observers
connect to a broker; the broker owns a part of the world, decides who may write what,
logs every change before anybody sees it, and hands entities over to neighbours when they
cross a border.

The library in `src/` is written in Verus. Each function states what it does in
`requires` and `ensures`, over a mathematical model of the broker (`State` in
`src/state.rs`, `Ent` in `src/entity.rs`, `Doc` in `src/doc.rs`), and Verus proves that the
code does it. What holds across functions is stated in the proof functions whose names
start with `law_`.

## Layout

- `doc`, `json`, `text`, `strmap`, `order`, `float`: documents, texts, ordered maps and
  the bits of floats. `doc` holds what is taken from `serde_json` on trust.
- `crc`, `wal`, `journal`, `recovery`, `replay`, `startup`: the log, what it rebuilds, and
  that replaying an event repeats what the broker did.
- `world`, `burial`, `ledger`, `cut`: what holds across all messages and tasks. The log
  says what the world will be, and a snapshot's offset replays to what it was; nothing
  brings back what was deleted; an entity is in one place.
- `claims`, `connect`, `policy`, `leases`, `registry`: who a peer is and what it may do.
- `entity`, `authority`, `grants`, `components`, `clock`, `update`: who writes what.
- `partition`, `interest`, `sight`, `publish`, `fidelity`, `query`, `ghosts`, `events`:
  where things are, who sees them, and in what detail.
- `handoff`, `moves`, `mesh`, `adopt`, `failover`, `rebalance`, `threshold`, `topology`:
  how entities change hands.
- `lifecycle`, `spawn`, `commands`, `control`, `report`, `schema`: the other requests.
- `receive`, `dispatch`, `steps`: what a message sets off. The broker is a machine of
  small tasks; between two steps it asks for the log, or for what only geometry can tell,
  and goes on with the answer.
- `replay_tape`, `tape_events`, `transfers`, `wire`: the redacted tape, and messages on the
  wire.

`app/` holds the program around the library: sockets, files, timers, and the arithmetic
on coordinates. `tests/` runs the library.
