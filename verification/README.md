# init_system

Lifecycle bookkeeping for Godot game objects ("inits"), with its core proved
in Verus.

- `src/data` — `InitId`, the `u64` identity of an init (fresh ids come from
  version-4 UUIDs, ids of Godot objects from their instance ids).
- `src/lifecycle` — `InitStorage<T>` and its `InitContext<T>` handle: queued
  additions and removals, committed by `process_pending`, where freeing an id
  removes everything registered below it. `model.rs` holds the mathematical
  model the contracts are written over, `laws.rs` the proved properties that
  span several operations.
- `src/naming` — the decisions of the `#[init]` attribute: which error an item
  gets (not a struct, unnamed fields, no `Init` suffix) and the snake-case
  name of its assertion function.
- `src/interfaces.rs` — `GetInitId`.
- `app/` — the Godot side: the `Init` callbacks, shared `Rc<RefCell<..>>`
  handles over the verified storage that run the free callbacks between
  `process_pending` and `finish_pending`, the `InitSystemNode` scene node, the
  serde form of `InitId`, and the body of the `#[init]` attribute.
