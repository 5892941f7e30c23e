use klomang_mempool::eviction::{EvictionEngine, EvictionPolicy, EvictionScore};
use klomang_mempool::pool::{PoolEntry, PoolStats, TransactionStatus};
use klomang_mempool::transaction::Transaction;

fn create_test_entry(id: u8, fee: u64, size: usize, arrival: u64) -> PoolEntry {
    let tx = Transaction { id: klomang_mempool::transaction::Hash::from_bytes([id; 32]), inputs: vec![], outputs: vec![], max_fee_per_gas: 0, encoded_size: 0 };
    let mut entry = PoolEntry::new(tx, fee, size);
    entry.arrival_time = arrival;
    entry
}

#[test]
fn test_eviction_score_calculation() {
    let entry = create_test_entry(1, 1000, 200, 1000);
    let score = EvictionScore::from_entry(&entry, 1100);
    assert_eq!(score.magnitude(), 500);
}

#[test]
fn test_deterministic_ordering() {
    let entry1 = create_test_entry(1, 1000, 100, 1000);
    let entry2 = create_test_entry(1, 1000, 100, 1000);
    let score1 = EvictionScore::from_entry(&entry1, 2000);
    let score2 = EvictionScore::from_entry(&entry2, 2000);
    assert_eq!(score1.magnitude() == score2.magnitude(), true, "Scores should be equal");
}

#[test]
fn test_pressure_calculation() {
    let _policy = EvictionPolicy { max_transaction_count: 100, max_memory_bytes: 10000, batch_size: 10 };
    let _stats = PoolStats {
        total_count: 50,
        pending_count: 50,
        validated_count: 0,
        orphan_count: 0,
        rejected_count: 0,
        total_fees: 0,
        total_size_bytes: 5000,
    };
    let pressure_tx = 50.0 / 100.0;
    let pressure_mem = 5000.0 / 10000.0;
    let total = (pressure_tx + pressure_mem) / 2.0;
    assert_eq!(pressure_tx, 0.5);
    assert_eq!(pressure_mem, 0.5);
    assert_eq!(total, 0.5);
}

fn stats(count: usize, bytes: usize) -> PoolStats {
    PoolStats { total_count: count, pending_count: 0, validated_count: 0, orphan_count: 0, rejected_count: 0, total_fees: 0, total_size_bytes: bytes }
}

#[test]
fn no_eviction_below_the_limits() {
    let engine = EvictionEngine::new(EvictionPolicy { max_transaction_count: 10, max_memory_bytes: 1000, batch_size: 2 });
    let entries = vec![create_test_entry(1, 10, 10, 0)];
    let r = engine.evict_lowest_priority(&entries, &stats(1, 10), 100);
    assert!(!r.success);
    assert_eq!(r.evicted_count, 0);
}

#[test]
fn evicts_rejected_and_orphans_lowest_score_first_up_to_the_batch() {
    let engine = EvictionEngine::new(EvictionPolicy { max_transaction_count: 3, max_memory_bytes: 1_000_000, batch_size: 2 });
    let mut a = create_test_entry(1, 1000, 10, 0);
    a.status = TransactionStatus::Rejected;
    let mut b = create_test_entry(2, 10, 10, 0);
    b.status = TransactionStatus::InOrphanPool;
    let c = create_test_entry(3, 1, 10, 0);
    let mut d = create_test_entry(4, 500, 10, 0);
    d.status = TransactionStatus::Rejected;
    let entries = vec![a, b, c, d];
    let r = engine.evict_lowest_priority(&entries, &stats(4, 40), 10);
    assert!(r.success);
    assert_eq!(r.evicted_count, 2);
    assert_eq!(r.evicted_hashes, vec![vec![2; 32], vec![4; 32]]);
    assert_eq!(r.evicted_bytes, 20);
    assert_eq!(r.total_evicted_fees, 510);
}

#[test]
fn analysis_sorts_every_entry_by_score() {
    let engine = EvictionEngine::new(EvictionPolicy::default());
    let entries = vec![create_test_entry(1, 300, 10, 0), create_test_entry(2, 100, 10, 0), create_test_entry(3, 200, 10, 0)];
    let order = engine.analyze_eviction_order(&entries, 2);
    assert_eq!(order, vec![(vec![2; 32], 20), (vec![3; 32], 40), (vec![1; 32], 60)]);
}

#[test]
fn need_eviction_at_either_limit() {
    let engine = EvictionEngine::new(EvictionPolicy { max_transaction_count: 5, max_memory_bytes: 100, batch_size: 1 });
    assert!(engine.need_eviction(&stats(5, 0)));
    assert!(engine.need_eviction(&stats(0, 100)));
    assert!(!engine.need_eviction(&stats(4, 99)));
}
