# coordinator

The coordination logic of a federated-learning server, verified with Verus.

- `src/client_manager.rs` — the client registry: registration with
  capacity limit and index assignment, session validation, heartbeats and
  inactivity cleanup, participation/submission counters and statistics.
  `src/client_table.rs` holds the registry's abstract model (a map from
  client id to record) and the lemmas the operations rely on.
- `src/coordinator.rs` — training rounds: gradient submission (round and
  duplicate checks, buffering, completion of a round at the aggregation
  threshold), recording of round results, heartbeats, model serving, reset.
- `src/federated.rs` — the request and response messages; real-valued
  fields are carried as `f32` bit patterns.
- `src/session.rs` — session tokens (random version-4 UUIDs, `uuid` crate).
- `src/clock.rs` — the system clock: Unix seconds, and milliseconds elapsed
  since an earlier reading (absent when the clock was set back).
- `src/text.rs` — decimal rendering used in the answer texts.
- `app/` — the server around the library: Prometheus metrics and their HTTP
  endpoint, the request handlers, and the floating-point averaging of a
  completed round's losses and accuracies.

Operations that read the clock come in two forms: `..._at(now)`, whose
contract is exact for the given time, and a form that reads the clock.
