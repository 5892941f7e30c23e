use klomang_mempool::advanced_orphan_management::{DeferredResolver, RecursiveOrphanLinker};
use klomang_mempool::conflict::OutPoint;
use klomang_mempool::orphan_manager::{OrphanEntry, OrphanEvictionPolicy, OrphanManager, OrphanPoolConfig};
use klomang_mempool::transaction::{hash_key, Transaction, TxInput, TxOutput};

fn create_test_transaction() -> Transaction {
    Transaction { id: klomang_mempool::transaction::Hash::from_bytes([1; 32]), inputs: vec![], outputs: vec![], max_fee_per_gas: 0, encoded_size: 0 }
}

fn tx_with_outputs(id: u8, spends: Vec<(u8, u32)>, outputs: usize) -> Transaction {
    Transaction {
        id: klomang_mempool::transaction::Hash::from_bytes([id; 32]),
        inputs: spends
            .into_iter()
            .map(|(p, i)| TxInput { prev_tx: klomang_mempool::transaction::Hash::from_bytes([p; 32]), index: i, pubkey: vec![] })
            .collect(),
        outputs: (0..outputs).map(|_| TxOutput { value: 1, pubkey_hash: klomang_mempool::transaction::Hash::from_bytes([0; 32]) }).collect(),
        max_fee_per_gas: 0,
        encoded_size: 0,
    }
}

#[test]
fn test_add_and_get_orphan() {
    let mut manager = OrphanManager::new(OrphanPoolConfig::default());
    let tx = create_test_transaction();
    let tx_hash = vec![1, 2, 3, 4];
    let missing = vec![OutPoint::new(vec![5, 6, 7, 8], 0)];

    assert!(manager.add_orphan(tx_hash.clone(), tx.clone(), missing, 256, 1000).is_ok());
    assert!(manager.contains(&tx_hash));

    let retrieved = manager.get_orphan(&tx_hash);
    assert!(retrieved.is_some());
}

#[test]
fn test_missing_input_index() {
    let mut manager = OrphanManager::new(OrphanPoolConfig::default());
    let tx = create_test_transaction();
    let tx_hash = vec![1, 2, 3, 4];
    let parent_outpoint = OutPoint::new(vec![5, 6, 7, 8], 0);
    let missing = vec![parent_outpoint.clone()];

    manager.add_orphan(tx_hash.clone(), tx, missing, 256, 1000).unwrap();

    let children = manager.get_orphans_waiting_for(&parent_outpoint);
    assert_eq!(children.len(), 1);
}

#[test]
fn test_process_orphans_for_parent() {
    let mut manager = OrphanManager::new(OrphanPoolConfig::default());
    let tx = create_test_transaction();
    let tx_hash = vec![1, 2, 3, 4];
    let parent_outpoint = OutPoint::new(vec![5, 6, 7, 8], 0);
    let missing = vec![parent_outpoint.clone()];

    manager.add_orphan(tx_hash.clone(), tx, missing, 256, 1000).unwrap();

    assert_eq!(manager.len(), 1);

    let result = manager.process_orphans_for_parent(&parent_outpoint).unwrap();
    assert_eq!(result.adoption_count, 1);
    assert_eq!(manager.len(), 0);
}

#[test]
fn test_remove_orphan() {
    let mut manager = OrphanManager::new(OrphanPoolConfig::default());
    let tx = create_test_transaction();
    let tx_hash = vec![1, 2, 3, 4];
    let missing = vec![OutPoint::new(vec![5, 6, 7, 8], 0)];

    manager.add_orphan(tx_hash.clone(), tx, missing, 256, 1000).unwrap();
    assert_eq!(manager.len(), 1);

    let removed = manager.remove_orphan(&tx_hash);
    assert!(removed.is_ok());
    assert_eq!(manager.len(), 0);
}

#[test]
fn test_eviction_fifo() {
    let config = OrphanPoolConfig { max_orphans: 2, eviction_policy: OrphanEvictionPolicy::Fifo, ..Default::default() };
    let mut manager = OrphanManager::new(config);
    let missing = vec![OutPoint::new(vec![99], 0)];
    // Explicit, increasing arrival times stand in for the pauses between
    // arrivals.
    manager.add_orphan_at(vec![1], create_test_transaction(), missing.clone(), 256, 1000, 10, 10).ok();
    manager.add_orphan_at(vec![2], create_test_transaction(), missing.clone(), 256, 1000, 20, 20).ok();
    manager.add_orphan_at(vec![3], create_test_transaction(), missing.clone(), 256, 1000, 30, 30).ok();

    assert_eq!(manager.len(), 2);
    assert!(!manager.contains(&[1]));
    assert!(manager.contains(&[2]));
    assert!(manager.contains(&[3]));
}

#[test]
fn test_cleanup_expired() {
    let config = OrphanPoolConfig { orphan_ttl_ns: 1_000_000, ..Default::default() };
    let mut manager = OrphanManager::new(config);
    let missing = vec![OutPoint::new(vec![5], 0)];
    manager.add_orphan_at(vec![1], create_test_transaction(), missing, 256, 1000, 1_000, 1_000).ok();
    assert_eq!(manager.len(), 1);
    // Two milliseconds later.
    let expired_count = manager.cleanup_expired_at(2_001_000);
    assert_eq!(expired_count, 1);
    assert_eq!(manager.len(), 0);
}

#[test]
fn test_statistics() {
    let mut manager = OrphanManager::new(OrphanPoolConfig::default());
    let missing = vec![OutPoint::new(vec![5], 0)];
    manager.add_orphan(vec![1], create_test_transaction(), missing, 256, 1000).ok();
    let stats = manager.get_stats();
    assert_eq!(stats.total_orphans, 1);
    assert_eq!(stats.total_memory_bytes, 256);
    assert_eq!(stats.unique_missing_parents, 1);
}

#[test]
fn test_verify_consistency() {
    let mut manager = OrphanManager::new(OrphanPoolConfig::default());
    let missing = vec![OutPoint::new(vec![5], 0)];
    manager.add_orphan(vec![1], create_test_transaction(), missing, 256, 1000).ok();
    assert!(manager.verify_consistency().is_ok());
}

#[test]
fn fee_based_eviction_takes_the_lowest_rate() {
    let config = OrphanPoolConfig { max_orphans: 2, eviction_policy: OrphanEvictionPolicy::FeeBased, ..Default::default() };
    let mut manager = OrphanManager::new(config);
    let missing = vec![OutPoint::new(vec![9], 0)];
    manager.add_orphan(vec![1], create_test_transaction(), missing.clone(), 100, 500).unwrap(); // rate 5
    manager.add_orphan(vec![2], create_test_transaction(), missing.clone(), 100, 200).unwrap(); // rate 2
    manager.add_orphan(vec![3], create_test_transaction(), missing.clone(), 100, 900).unwrap(); // rate 9
    assert!(manager.contains(&[1]));
    assert!(!manager.contains(&[2]));
    assert!(manager.contains(&[3]));
    assert_eq!(manager.get_stats().evicted_count, 1);
}

#[test]
fn eviction_fails_on_a_full_pool_with_nothing_to_evict() {
    let config = OrphanPoolConfig { max_orphans: 0, eviction_policy: OrphanEvictionPolicy::Fifo, ..Default::default() };
    let mut manager = OrphanManager::new(config);
    let r = manager.add_orphan(vec![1], create_test_transaction(), vec![], 10, 10);
    assert_eq!(r, Err("No transaction available for eviction".to_string()));
    assert_eq!(manager.len(), 0);
}

#[test]
fn removing_an_unknown_orphan_fails() {
    let mut manager = OrphanManager::new(OrphanPoolConfig::default());
    assert_eq!(manager.remove_orphan(&[7]).err(), Some("Orphan transaction not found".to_string()));
}

#[test]
fn removal_drops_the_orphan_from_the_index() {
    let mut manager = OrphanManager::new(OrphanPoolConfig::default());
    let op = OutPoint::new(vec![5], 0);
    manager.add_orphan(vec![1], create_test_transaction(), vec![op.clone()], 10, 10).unwrap();
    manager.add_orphan(vec![2], create_test_transaction(), vec![op.clone()], 10, 10).unwrap();
    manager.remove_orphan(&[1]).unwrap();
    assert_eq!(manager.get_orphans_waiting_for(&op).len(), 1);
    manager.remove_orphan(&[2]).unwrap();
    assert_eq!(manager.get_stats().unique_missing_parents, 0);
    assert_eq!(manager.get_stats().total_memory_bytes, 0);
}

#[test]
fn adoption_hands_out_each_waiting_orphan_once() {
    let mut manager = OrphanManager::new(OrphanPoolConfig::default());
    let op = OutPoint::new(vec![5], 0);
    let other = OutPoint::new(vec![6], 1);
    manager.add_orphan(vec![1], tx_with_outputs(1, vec![], 0), vec![op.clone(), other.clone()], 10, 10).unwrap();
    manager.add_orphan(vec![2], tx_with_outputs(2, vec![], 0), vec![op.clone()], 10, 10).unwrap();
    let res = manager.process_orphans_for_parents(&vec![op.clone(), other.clone()]).unwrap();
    assert_eq!(res.adoption_count, 2);
    assert_eq!(res.adopted_txs[0].id, klomang_mempool::transaction::Hash::from_bytes([1; 32]));
    assert_eq!(res.adopted_txs[1].id, klomang_mempool::transaction::Hash::from_bytes([2; 32]));
    assert_eq!(res.remaining_orphans, 0);
    assert_eq!(manager.get_stats().adoption_count, 2);
}

#[test]
fn ages_are_measured_from_entry() {
    let e = OrphanEntry::new_at(create_test_transaction(), vec![], 4, 10, 100);
    assert_eq!(e.fee_rate(), 2);
    assert_eq!(e.age_ns_at(150), 50);
    assert_eq!(e.age_ns_at(50), 0);
    assert!(e.is_expired_at(49, 150));
    assert!(!e.is_expired_at(50, 150));
}

#[test]
fn age_range_selects_by_age() {
    let mut manager = OrphanManager::new(OrphanPoolConfig::default());
    manager.add_orphan_at(vec![1], tx_with_outputs(1, vec![], 0), vec![], 1, 1, 100, 100).unwrap();
    manager.add_orphan_at(vec![2], tx_with_outputs(2, vec![], 0), vec![], 1, 1, 500, 500).unwrap();
    let old = manager.get_orphans_by_age_range_at(400, 600, 1000);
    assert_eq!(old.len(), 1);
    assert_eq!(old[0].id, klomang_mempool::transaction::Hash::from_bytes([2; 32]));
}

#[test]
fn test_deferred_resolver_scheduling() {
    let mut resolver = DeferredResolver::new(100, 10);
    assert!(resolver.schedule_resolution(vec![1], 100).is_ok());
    assert!(resolver.schedule_resolution(vec![2], 200).is_ok());
    assert_eq!(resolver.queue_size(), 2);
}

#[test]
fn test_deferred_resolver_batch_processing() {
    let mut resolver = DeferredResolver::new(0, 5);
    for i in 0..10 {
        let _ = resolver.schedule_resolution(vec![i as u8], i as u64);
    }
    match resolver.process_batch() {
        Ok(batch) => {
            assert_eq!(batch.len(), 5);
            assert_eq!(resolver.queue_size(), 5);
        }
        Err(e) => panic!("Batch processing failed: {}", e),
    }
}

#[test]
fn higher_priority_goes_first() {
    let mut resolver = DeferredResolver::new(0, 5);
    for i in 0..10 {
        resolver.schedule_resolution(vec![i as u8], i as u64).unwrap();
    }
    let batch = resolver.process_batch().unwrap();
    assert_eq!(batch.len(), 5);
    assert_eq!(resolver.queue_size(), 5);
    assert_eq!(batch.iter().map(|t| t.priority).collect::<Vec<_>>(), vec![9, 8, 7, 6, 5]);
}

#[test]
fn equal_priorities_keep_their_order() {
    let mut resolver = DeferredResolver::new(0, 10);
    resolver.schedule_resolution_at(vec![1], 5, 0).unwrap();
    resolver.schedule_resolution_at(vec![2], 7, 0).unwrap();
    resolver.schedule_resolution_at(vec![3], 5, 0).unwrap();
    let batch = resolver.process_batch_at(10).unwrap();
    assert_eq!(batch.iter().map(|t| t.tx_hash[0]).collect::<Vec<_>>(), vec![2, 1, 3]);
}

#[test]
fn batches_are_throttled_and_expired_tasks_dropped() {
    let ttl: u128 = 20 * 60 * 1_000_000_000;
    let mut resolver = DeferredResolver::new(100, 2);
    resolver.schedule_resolution_at(vec![1], 9, 0).unwrap();
    resolver.schedule_resolution_at(vec![2], 8, ttl).unwrap();
    resolver.schedule_resolution_at(vec![3], 7, ttl).unwrap();
    resolver.schedule_resolution_at(vec![4], 6, ttl).unwrap();
    // Less than 100 ms after the start: nothing.
    assert!(resolver.process_batch_at(50_000_000).unwrap().is_empty());
    assert_eq!(resolver.queue_size(), 4);
    // Later, the first task has expired and is dropped on the way.
    let now = ttl + 1;
    let batch = resolver.process_batch_at(now).unwrap();
    assert_eq!(batch.iter().map(|t| t.tx_hash[0]).collect::<Vec<_>>(), vec![2, 3]);
    assert_eq!(resolver.queue_size(), 1);
    let stats = resolver.get_stats();
    assert_eq!(stats.total_expired, 1);
    assert_eq!(stats.total_processed, 2);
    // Too soon after that batch.
    assert!(resolver.process_batch_at(now + 1).unwrap().is_empty());
}

#[test]
fn test_recursive_linker_creation() {
    let linker = RecursiveOrphanLinker::new(10);
    let stats = linker.get_stats();
    assert_eq!(stats.total_chains_resolved, 0);
}

#[test]
fn test_chain_integrity_report() {
    let linker = RecursiveOrphanLinker::new(10);
    match linker.verify_chain_integrity() {
        Ok(report) => {
            assert_eq!(report.total_links, 0);
            assert_eq!(report.orphaned_links, 0);
        }
        Err(e) => panic!("Integrity check failed: {}", e),
    }
}

#[test]
fn linking_adopts_a_whole_chain_level_by_level() {
    // parent (id 10, one output) <- child (id 11, one output) <- grandchild (id 12)
    let mut manager = OrphanManager::new(OrphanPoolConfig::default());
    let parent = tx_with_outputs(10, vec![], 1);
    let child = tx_with_outputs(11, vec![(10, 0)], 1);
    let grandchild = tx_with_outputs(12, vec![(11, 0)], 0);
    let child_needs = OutPoint::new(hash_key(&parent.id), 0);
    let grandchild_needs = OutPoint::new(hash_key(&child.id), 0);
    manager.add_orphan(hash_key(&child.id), child.clone(), vec![child_needs], 10, 10).unwrap();
    manager.add_orphan(hash_key(&grandchild.id), grandchild.clone(), vec![grandchild_needs], 10, 10).unwrap();

    let mut linker = RecursiveOrphanLinker::new(10);
    let res = linker.link_orphan_chain(&mut manager, &parent).unwrap();
    assert_eq!(res.total_adopted, 2);
    assert_eq!(res.maximum_depth, 2);
    assert_eq!(manager.len(), 0);
    let topology = linker.get_chain_topology();
    assert_eq!(topology.get(&1), Some(&1));
    assert_eq!(topology.get(&2), Some(&1));
    assert_eq!(linker.get_stats().total_chains_resolved, 1);
    assert_eq!(linker.get_stats().max_depth_reached, 2);
    assert!(linker.detect_circular_dependencies().unwrap().is_empty());
    let report = linker.verify_chain_integrity().unwrap();
    assert_eq!(report.total_links, 2);
    assert_eq!(report.invalid_depth_links, 0);
}

#[test]
fn linking_stops_at_the_depth_limit() {
    let mut manager = OrphanManager::new(OrphanPoolConfig::default());
    let parent = tx_with_outputs(10, vec![], 1);
    let child = tx_with_outputs(11, vec![(10, 0)], 1);
    let grandchild = tx_with_outputs(12, vec![(11, 0)], 0);
    manager.add_orphan(hash_key(&child.id), child.clone(), vec![OutPoint::new(hash_key(&parent.id), 0)], 10, 10).unwrap();
    manager.add_orphan(hash_key(&grandchild.id), grandchild, vec![OutPoint::new(hash_key(&child.id), 0)], 10, 10).unwrap();
    let mut linker = RecursiveOrphanLinker::new(1);
    let res = linker.link_orphan_chain(&mut manager, &parent).unwrap();
    assert_eq!(res.total_adopted, 1);
    assert_eq!(res.maximum_depth, 1);
    assert_eq!(manager.len(), 1);
}

#[test]
fn sibling_adoptions_count_once_each() {
    // Two orphans wait for the same output: each counts once.
    let mut manager = OrphanManager::new(OrphanPoolConfig::default());
    let parent = tx_with_outputs(10, vec![], 1);
    let need = OutPoint::new(hash_key(&parent.id), 0);
    manager.add_orphan(vec![1], tx_with_outputs(1, vec![], 0), vec![need.clone()], 10, 10).unwrap();
    manager.add_orphan(vec![2], tx_with_outputs(2, vec![], 0), vec![need.clone()], 10, 10).unwrap();
    let mut linker = RecursiveOrphanLinker::new(5);
    let res = linker.link_orphan_chain(&mut manager, &parent).unwrap();
    assert_eq!(res.total_adopted, 2);
    assert_eq!(res.maximum_depth, 1);
    assert_eq!(manager.len(), 0);
}

#[test]
fn adoption_clears_the_other_missing_inputs() {
    let mut manager = OrphanManager::new(OrphanPoolConfig::default());
    let a = OutPoint::new(vec![5], 0);
    let b = OutPoint::new(vec![6], 0);
    manager.add_orphan(vec![1], create_test_transaction(), vec![a.clone(), b.clone()], 256, 1000).unwrap();
    assert!(manager.verify_consistency().is_ok());
    let res = manager.process_orphans_for_parent(&a).unwrap();
    assert_eq!(res.adoption_count, 1);
    assert!(manager.get_orphans_waiting_for(&b).is_empty());
    assert!(manager.verify_consistency().is_ok());
}
