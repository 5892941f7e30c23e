use klomang_mempool::advanced_dependency_manager::TxDependencyManager;
use klomang_mempool::cascade_coordinator::{CascadeValidationCoordinator, CascadeValidationResult};
use klomang_mempool::conflict::OutPoint;
use klomang_mempool::dependency_eviction_system::{DependencyEvictionSystem, EvictionReason};
use klomang_mempool::dependency_ordering_engine::DependencyOrderingEngine;
use klomang_mempool::keyed::KeySet;
use klomang_mempool::storage_error::StorageError;
use klomang_mempool::transaction::{Transaction, TxInput};

fn tx(id: u8, prev: u8) -> Transaction {
    Transaction {
        id: klomang_mempool::transaction::Hash::from_bytes([id; 32]),
        inputs: vec![TxInput { prev_tx: klomang_mempool::transaction::Hash::from_bytes([prev; 32]), index: 0, pubkey: vec![] }],
        outputs: vec![],
        max_fee_per_gas: 0,
        encoded_size: 0,
    }
}

fn chain_with(prev: u8) -> KeySet<OutPoint> {
    let mut s = KeySet::new();
    s.insert(OutPoint::new(vec![prev; 32], 0));
    s
}

/// A spends an output on chain, B spends A, C spends B.
fn chain_abc() -> TxDependencyManager {
    let mut deps = TxDependencyManager::new();
    let chain = chain_with(9);
    deps.register_transaction(&tx(1, 9), &chain).unwrap();
    deps.register_transaction(&tx(2, 1), &chain).unwrap();
    deps.register_transaction(&tx(3, 2), &chain).unwrap();
    deps
}

#[test]
fn test_dependency_manager_creation() {
    let deps = TxDependencyManager::new();
    assert_eq!(deps.get_stats().total_tracked, 0);
}

#[test]
fn test_cascade_coordinator_creation() {
    let coordinator = CascadeValidationCoordinator::new();
    assert_eq!(coordinator.get_stats().total_cascades, 0);
}

#[test]
fn test_eviction_system_creation() {
    let system = DependencyEvictionSystem::new();
    assert_eq!(system.get_stats().total_evicted, 0);
}

#[test]
fn test_topological_ordering_engine_creation() {
    let engine = DependencyOrderingEngine::new();
    assert_eq!(engine.get_in_degree_map().len(), 0);
}

#[test]
fn depths_follow_the_chain_of_parents() {
    let deps = chain_abc();
    assert_eq!(deps.get_execution_depth(&vec![1; 32]), Some(0));
    assert_eq!(deps.get_execution_depth(&vec![2; 32]), Some(1));
    assert_eq!(deps.get_execution_depth(&vec![3; 32]), Some(2));
    assert_eq!(deps.get_transactions_at_depth(1), vec![vec![2; 32]]);
    assert_eq!(deps.get_stats().total_tracked, 3);
    assert_eq!(deps.get_stats().total_dependencies, 2);
}

#[test]
fn ancestors_come_parents_first() {
    let deps = chain_abc();
    assert_eq!(deps.get_executable_ancestors(&vec![3; 32]), vec![vec![1; 32], vec![2; 32]]);
    let chain = deps.get_dependency_chain(&vec![3; 32]).unwrap();
    assert_eq!(chain.execution_depth, 2);
    assert_eq!(chain.all_ancestors.len(), 2);
    assert_eq!(chain.direct_parents.len(), 1);
}

#[test]
fn a_transaction_spending_itself_is_circular() {
    let mut deps = TxDependencyManager::new();
    let r = deps.register_transaction(&tx(5, 5), &KeySet::new());
    assert_eq!(r.err(), Some(StorageError::OperationFailed("Circular dependency detected".to_string())));
    assert_eq!(deps.get_stats().cycles_prevented, 1);
    assert_eq!(deps.get_execution_depth(&vec![5; 32]), None);
}

#[test]
fn registering_twice_gives_the_same_chain() {
    let mut deps = chain_abc();
    let again = deps.register_transaction(&tx(2, 1), &chain_with(9)).unwrap();
    assert_eq!(again.execution_depth, 1);
    assert_eq!(deps.get_stats().total_tracked, 3);
}

#[test]
fn dependents_are_found_at_any_distance() {
    let deps = chain_abc();
    let mut d = deps.get_all_transitive_dependents(&vec![1; 32]);
    d.sort();
    assert_eq!(d, vec![vec![2; 32], vec![3; 32]]);
    assert_eq!(deps.get_dependent_children(&vec![1; 32]), vec![vec![2; 32]]);
}

#[test]
fn kahn_sort_orders_every_transaction_after_its_ancestors() {
    let deps = chain_abc();
    let engine = DependencyOrderingEngine::new();
    let r = engine.get_topological_sort(&deps).unwrap();
    assert_eq!(r.sorted_transactions, vec![vec![1; 32], vec![2; 32], vec![3; 32]]);
    assert_eq!(r.cycles_detected, 0);
    assert_eq!(r.cycle_members.len(), 0);
    let dfs = engine.get_topological_sort_dfs(&deps).unwrap();
    assert_eq!(dfs.sorted_transactions.len(), 3);
}

#[test]
fn topology_counts() {
    let deps = chain_abc();
    let engine = DependencyOrderingEngine::new();
    let st = engine.get_topology_stats(&deps).unwrap();
    assert_eq!(st.total_transactions, 3);
    assert_eq!(st.total_edges, 3);
    assert_eq!(st.max_depth, 2);
    assert_eq!(st.root_transactions, 1);
    assert_eq!(st.leaf_transactions, 1);
    assert_eq!(engine.has_dependency_path(&deps, &vec![3; 32], &vec![1; 32]), Ok(true));
    assert_eq!(engine.has_dependency_path(&deps, &vec![1; 32], &vec![3; 32]), Ok(false));
}

#[test]
fn rebuilt_caches_hold_in_degrees() {
    let deps = chain_abc();
    let mut engine = DependencyOrderingEngine::new();
    engine.rebuild_adjacency_structures(&deps).unwrap();
    let deg = engine.get_in_degree_map();
    assert_eq!(deg.get(&vec![3; 32]), Some(&2));
    assert_eq!(engine.get_adjacency_list().len(), 3);
    engine.clear_caches();
    assert_eq!(engine.get_in_degree_map().len(), 0);
}

#[test]
fn confirmation_reexamines_direct_children() {
    let deps = chain_abc();
    let mut coordinator = CascadeValidationCoordinator::new();
    let ev = coordinator.cascade_on_parent_confirmation(&deps, &vec![1; 32]).unwrap();
    assert_eq!(ev.direct_children_count, 1);
    assert_eq!(ev.total_dependents_count, 2);
    assert_eq!(ev.child_results, vec![(vec![2; 32], CascadeValidationResult::StillOrphan)]);
    assert_eq!(coordinator.get_stats().children_revalidated, 1);
    assert_eq!(coordinator.get_stats().children_promoted, 0);
}

#[test]
fn cascade_eviction_removes_the_primary_and_its_dependents() {
    let mut deps = chain_abc();
    let mut system = DependencyEvictionSystem::new();
    let r = system.evict_transaction_cascade(&mut deps, &vec![1; 32], EvictionReason::LowFees).unwrap();
    assert_eq!(r.primary_eviction, vec![1; 32]);
    assert!(r.cascaded_evictions.contains(&vec![2; 32]));
    assert!(r.cascaded_evictions.contains(&vec![3; 32]));
    assert!(r.preserved_transactions.is_empty());
    assert_eq!(system.get_stats().total_evicted, 3);
    assert_eq!(system.get_stats().cascade_evictions, 2);
    assert_eq!(deps.get_execution_depth(&vec![1; 32]), None);
    assert_eq!(deps.get_execution_depth(&vec![2; 32]), None);
    let recent = system.get_recent_evictions(1);
    assert_eq!(recent.len(), 1);
}

#[test]
fn orphaned_dependents_have_a_single_ancestor() {
    let deps = chain_abc();
    let system = DependencyEvictionSystem::new();
    assert_eq!(system.get_orphaned_dependents(&deps, &vec![1; 32]).unwrap(), vec![vec![2; 32]]);
}

#[test]
fn criteria_eviction_spares_roots_with_dependents() {
    let mut deps = chain_abc();
    let mut system = DependencyEvictionSystem::new();
    let evicted = system.evict_by_criteria(&mut deps, |h: &Vec<u8>| h[0] == 1, EvictionReason::Timeout).unwrap();
    assert!(evicted.is_empty());
    assert_eq!(deps.get_execution_depth(&vec![1; 32]), Some(0));
    assert_eq!(system.get_stats().total_evicted, 0);
}

#[test]
fn criteria_eviction_keeps_unselected_roots() {
    let mut deps = TxDependencyManager::new();
    let chain = chain_with(9);
    deps.register_transaction(&tx(1, 9), &chain).unwrap();
    deps.register_transaction(&tx(4, 9), &chain).unwrap();
    let mut system = DependencyEvictionSystem::new();
    let evicted = system.evict_by_criteria(&mut deps, |h: &Vec<u8>| h[0] == 4, EvictionReason::LowFees).unwrap();
    assert_eq!(evicted, vec![vec![4; 32]]);
    let stats = system.get_stats();
    assert_eq!(stats.total_evicted, 1);
    assert_eq!(stats.recent_evictions.len(), 1);
    assert_eq!(stats.recent_evictions[0].tx_hash, vec![4; 32]);
    assert!(!stats.recent_evictions[0].is_cascade);
    let none = system.evict_by_criteria(&mut deps, |_h: &Vec<u8>| false, EvictionReason::LowFees).unwrap();
    assert!(none.is_empty());
    assert_eq!(system.get_stats().total_evicted, 1);
}

#[test]
fn removal_cascades_to_orphaned_dependents() {
    let mut deps = chain_abc();
    let mut evicted = deps.remove_transaction(&vec![1; 32]);
    assert_eq!(evicted[0], vec![1; 32]);
    evicted.sort();
    assert_eq!(evicted, vec![vec![1; 32], vec![2; 32], vec![3; 32]]);
    assert_eq!(deps.get_execution_depth(&vec![1; 32]), None);
    assert_eq!(deps.get_execution_depth(&vec![2; 32]), None);
    assert_eq!(deps.get_execution_depth(&vec![3; 32]), None);
}

#[test]
fn removal_keeps_a_dependent_with_another_parent() {
    let mut deps = TxDependencyManager::new();
    let chain = chain_with(9);
    deps.register_transaction(&tx(1, 9), &chain).unwrap();
    deps.register_transaction(&tx(4, 9), &chain).unwrap();
    let both = Transaction {
        id: klomang_mempool::transaction::Hash::from_bytes([5; 32]),
        inputs: vec![
            TxInput { prev_tx: klomang_mempool::transaction::Hash::from_bytes([1; 32]), index: 0, pubkey: vec![] },
            TxInput { prev_tx: klomang_mempool::transaction::Hash::from_bytes([4; 32]), index: 0, pubkey: vec![] },
        ],
        outputs: vec![],
        max_fee_per_gas: 0,
        encoded_size: 0,
    };
    deps.register_transaction(&both, &chain).unwrap();
    let evicted = deps.remove_transaction(&vec![1; 32]);
    assert_eq!(evicted, vec![vec![1; 32]]);
    assert!(deps.get_execution_depth(&vec![5; 32]).is_some());
}

#[test]
fn cascade_eviction_preserves_dependents_with_another_parent() {
    let mut deps = TxDependencyManager::new();
    let chain = chain_with(9);
    deps.register_transaction(&tx(1, 9), &chain).unwrap();
    deps.register_transaction(&tx(4, 9), &chain).unwrap();
    let both = Transaction {
        id: klomang_mempool::transaction::Hash::from_bytes([5; 32]),
        inputs: vec![
            TxInput { prev_tx: klomang_mempool::transaction::Hash::from_bytes([1; 32]), index: 0, pubkey: vec![] },
            TxInput { prev_tx: klomang_mempool::transaction::Hash::from_bytes([4; 32]), index: 0, pubkey: vec![] },
        ],
        outputs: vec![],
        max_fee_per_gas: 0,
        encoded_size: 0,
    };
    deps.register_transaction(&both, &chain).unwrap();
    let mut system = DependencyEvictionSystem::new();
    let r = system.evict_transaction_cascade(&mut deps, &vec![1; 32], EvictionReason::LowFees).unwrap();
    assert!(r.cascaded_evictions.is_empty());
    assert_eq!(r.preserved_transactions, vec![vec![5; 32]]);
    assert_eq!(system.get_stats().preserved_with_alt_parents, 1);
    assert!(deps.get_execution_depth(&vec![5; 32]).is_some());
}
