# xraft

A Raft node whose decisions are verified with Verus.

- `src/` is the verified library. `raft_core::Core` holds a node's volatile
  state; each message, answer and timer event is a method whose contract
  states the next state and the side effects (`raft_core::Action`) it asks
  for, over the model `raft_core::CoreView`. `types` holds the membership and
  the log entries, `laws` the properties that hold across handlers.
- `app/` is the asynchronous runtime: it runs a node as a task, performs the
  actions (storage, network, timers) and offers the `Raft` handle.
- `tests/` runs the library on concrete values.
