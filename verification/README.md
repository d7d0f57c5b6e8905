# bee_runtime

A small service runtime whose decisions are verified with Verus.

- `src/runtime/dag.rs` — dependency resolution and Kahn's topological sort.
  Its contract fixes the order: each service starts once its last dependency
  has, and services that become ready together start in registration order
  (a proof shows that only one order does both). It also fixes the first
  unknown dependency and the services that a cycle blocks.
- `src/runtime/builder.rs` — service registration (names never repeat).
- `src/runtime/supervisor.rs` — the supervisor as a state machine from
  state and event to next state and action, with laws over whole runs.
- `src/runtime/types.rs` — shutdown reasons, shared runtime state, handles,
  and the runtime's error type.
- `src/event.rs` — typed publish/subscribe topics over tokio's broadcast
  channel.
- `src/service.rs`, `src/util.rs` — service descriptions, name comparison,
  order-preserving deduplication, the default shutdown timeout.
- `app/` — the async side: typed services, the supervision loop that drives
  `supervisor_step` with tokio, and error types with `Display`.
