# chiron

A verified scheduler for the parallel execution of a block of EVM
transactions. From the transactions' access lists it builds a dependency
graph, and hands out execution tasks only for transactions whose
dependencies have executed, preferring transactions on the critical
(most expensive) path; validation tasks follow in transaction order.

- `src/types.rs`: transaction versions, statuses, tasks.
- `src/graph.rs`: the dependency graph, its specification and its construction.
- `src/scheduler.rs`: the scheduler state, a model of each operation, and
  the operations, each proved to follow its model.
- `src/laws.rs`: the properties that hold across operations.
- `src/outside.rs`: the contracts assumed of `boxcar`, `flume` and `rustc-hash`.
- `app/`: sharing the scheduler between threads, and reading revm transactions.
