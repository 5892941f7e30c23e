//! Verified mempool logic for the Klomang node: conflict detection, dependency
//! graphs, deterministic ordering, partitioning and eviction.

pub mod bytes;
pub mod keyed;
pub mod reach;
pub mod walk;
pub mod text;
pub mod counter;
pub mod external;
pub mod transaction;
pub mod graph_conflict_ordering;
pub mod advanced_conflicts;
pub mod conflict_graph;
pub mod dependency_graph;
pub mod priority_ordering;
pub mod deterministic_ordering;
pub mod pool;
pub mod eviction;
pub mod conflict;
pub mod parallel_partitioning;
pub mod storage_error;
pub mod advanced_dependency_manager;
pub mod cascade_coordinator;
pub mod dependency_ordering_engine;
pub mod dependency_eviction_system;
pub mod orphan_manager;
pub mod advanced_orphan_management;
pub mod memory_limiter;
pub mod parallel_transaction_index;
pub mod advanced_transaction_manager;
pub mod multi_dimensional_index;
pub mod admission;
pub mod transaction_pool;
pub mod ordering_selection;
