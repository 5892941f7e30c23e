# klomang_mempool

A transaction pool (mempool) library whose logic is verified with Verus.

`src/` holds the verified library:

- `transaction_pool`: the pool itself, with `add_transaction_at`, which runs the
  admission steps of `admission` (fee screens, capacity, memory room, spend
  conflicts, validation verdict) and places a transaction in the main pool or
  the orphan pool;
- `advanced_transaction_manager`: a pool with a conflict map and a dependency
  graph that settles direct conflicts before admission;
- conflict tracking (`conflict`, `advanced_conflicts`, `conflict_graph`,
  `graph_conflict_ordering`), dependencies (`dependency_graph`,
  `advanced_dependency_manager`, `dependency_ordering_engine`,
  `cascade_coordinator`, `dependency_eviction_system`), orphans
  (`orphan_manager`, `advanced_orphan_management`), ordering
  (`priority_ordering`, `deterministic_ordering`, `ordering_selection`, `pool`),
  indexes (`multi_dimensional_index`, `parallel_transaction_index`),
  partitioning (`parallel_partitioning`), memory accounting (`memory_limiter`)
  and eviction (`eviction`).

Calls into `dashmap`, `indexmap`, `bincode` and the clock stand behind small
trusted wrappers whose contracts say what those calls do.

`app/` holds what works in floating point (priority scores, ratios, the
token buckets of the rate limit, the host-load admission controller, the
computation-cost factor of a transaction's weight) and a small driver that
reads the clock and hands these outcomes to `add_transaction_at`. No
validator is wired in there, so the driver offers no validation verdict.
`tests/` holds the tests.
