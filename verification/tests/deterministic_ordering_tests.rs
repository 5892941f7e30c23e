use klomang_mempool::deterministic_ordering::{DeterministicOrderingEngine, DeterministicOrderingEngineConfig, OrderingValidation};
use klomang_mempool::priority_ordering::PrioritizedTransaction;

fn create_test_tx(hash: usize, fee_rate: u64, arrival_time: u64) -> (Vec<u8>, u64, u64, usize, u64) {
    let hash_vec = vec![(hash & 0xFF) as u8; 32];
    (hash_vec, fee_rate, arrival_time, 200, fee_rate * 200)
}

#[test]
fn test_deterministic_engine_creation() {
    let config = DeterministicOrderingEngineConfig::default();
    let engine = DeterministicOrderingEngine::new(config);

    assert!(engine.get_ordered_transactions(10).is_ok());
}

#[test]
fn test_add_transactions() {
    let config = DeterministicOrderingEngineConfig::default();
    let mut engine = DeterministicOrderingEngine::new(config);

    let (hash, fee_rate, arrival_time, size, total_fee) = create_test_tx(1, 50, 1000);
    assert!(engine.add_transaction(hash, fee_rate, arrival_time, size, total_fee).is_ok());

    assert_eq!(engine.get_ordered_transactions(10).unwrap().len(), 1);
}

#[test]
fn test_deterministic_ordering_consistency() {
    let config = DeterministicOrderingEngineConfig::default();
    let mut engine = DeterministicOrderingEngine::new(config);

    for i in 0..5 {
        let (hash, fee_rate, arrival_time, size, total_fee) = create_test_tx(i, 50 + i as u64, 1000);
        assert!(engine.add_transaction(hash, fee_rate, arrival_time, size, total_fee).is_ok());
    }

    let first_result = engine.get_ordered_transactions(10).unwrap();
    let second_result = engine.get_ordered_transactions(10).unwrap();

    assert_eq!(first_result.len(), second_result.len());
    for (tx1, tx2) in first_result.iter().zip(second_result.iter()) {
        assert_eq!(tx1.tx_hash, tx2.tx_hash);
    }
}

#[test]
fn test_verify_ordering_consistency() {
    let config = DeterministicOrderingEngineConfig::default();
    let mut engine = DeterministicOrderingEngine::new(config);

    let (hash, fee_rate, arrival_time, size, total_fee) = create_test_tx(1, 50, 1000);
    assert!(engine.add_transaction(hash, fee_rate, arrival_time, size, total_fee).is_ok());

    let validation = engine.verify_ordering_consistency().unwrap();
    assert!(validation.is_valid);
}

#[test]
fn deterministic_ordering_test_remove_transaction() {
    let config = DeterministicOrderingEngineConfig::default();
    let mut engine = DeterministicOrderingEngine::new(config);

    let (hash, fee_rate, arrival_time, size, total_fee) = create_test_tx(1, 50, 1000);
    let hash_vec = hash.clone();

    assert!(engine.add_transaction(hash, fee_rate, arrival_time, size, total_fee).is_ok());
    assert_eq!(engine.get_ordered_transactions(10).unwrap().len(), 1);

    let removed = engine.remove_transaction(&hash_vec);
    assert!(removed.is_some());
    assert_eq!(engine.get_ordered_transactions(10).unwrap().len(), 0);
}

#[test]
fn validation_constructors() {
    let ok = OrderingValidation::success(3, true);
    assert!(ok.is_valid && ok.storage_verified && ok.error_message.is_none());
    assert_eq!(ok.transaction_count, 3);
    let bad = OrderingValidation::failure("e".to_string(), 2);
    assert!(!bad.is_valid && !bad.storage_verified);
    assert_eq!(bad.error_message, Some("e".to_string()));
    assert_eq!(bad.transaction_count, 2);
}

#[test]
fn peers_with_the_same_transactions_agree_whatever_the_arrival_order() {
    let batch: Vec<_> = (1..=6).map(|i| create_test_tx(i, 40 + (i as u64 % 3), 10)).collect();
    let mut a = DeterministicOrderingEngine::new(DeterministicOrderingEngineConfig::default());
    let mut b = DeterministicOrderingEngine::new(DeterministicOrderingEngineConfig::default());
    assert_eq!(a.process_batch(batch.clone()), Ok(6));
    let mut reversed = batch.clone();
    reversed.reverse();
    assert_eq!(b.process_batch(reversed), Ok(6));
    let snapshot = b.export_ordered_snapshot().unwrap();
    let v = a.validate_against_peer(&snapshot).unwrap();
    assert!(v.is_valid);
    assert_eq!(v.transaction_count, 6);
}

#[test]
fn peer_mismatches_are_reported_by_position() {
    let mut a = DeterministicOrderingEngine::new(DeterministicOrderingEngineConfig::default());
    a.process_batch(vec![create_test_tx(1, 50, 0), create_test_tx(2, 40, 0)]).unwrap();
    let v = a.validate_against_peer(&[]).unwrap();
    assert_eq!(v.error_message, Some("Transaction count mismatch: 1 vs 0".to_string()));
    let peer = vec![
        PrioritizedTransaction::new(vec![1; 32], 50, 0, 200, 10000),
        PrioritizedTransaction::new(vec![9; 32], 40, 0, 200, 8000),
    ];
    let v = a.validate_against_peer(&peer).unwrap();
    assert_eq!(v.error_message, Some("Transaction mismatch at position 1".to_string()));
    assert_eq!(v.transaction_count, 1);
    let peer = vec![PrioritizedTransaction::new(vec![1; 32], 51, 0, 200, 10000), peer[1].clone()];
    let v = a.validate_against_peer(&peer).unwrap();
    assert_eq!(v.error_message, Some("Deterministic comparison failed at position 0: Greater".to_string()));
}

#[test]
fn batch_stops_at_the_first_unplaceable() {
    let mut e = DeterministicOrderingEngine::new(DeterministicOrderingEngineConfig::default());
    let r = e.process_batch(vec![create_test_tx(1, 5, 0), (vec![2; 32], u64::MAX, 0, 1, 1), create_test_tx(3, 5, 0)]);
    assert_eq!(r, Err("No suitable bucket for fee rate".to_string()));
    assert!(e.contains(&vec![1; 32]));
    assert!(!e.contains(&vec![3; 32]));
}

#[test]
fn storage_counts_only_when_attached_and_enabled() {
    let mut e = DeterministicOrderingEngine::with_storage(DeterministicOrderingEngineConfig::default());
    e.add_transaction(vec![1], 5, 0, 1, 1).unwrap();
    assert!(e.verify_ordering_consistency().unwrap().storage_verified);
    let cfg = DeterministicOrderingEngineConfig { validate_ordering: true, batch_size: 1, use_storage_verification: false };
    let mut f = DeterministicOrderingEngine::new(cfg);
    f.set_storage();
    assert!(!f.verify_ordering_consistency().unwrap().storage_verified);
    let stats = e.get_ordering_stats().unwrap();
    assert_eq!(stats.total_transactions, 1);
    assert_eq!(stats.bucket_count, 5);
    assert_eq!(stats.bucket_distribution, vec![0, 1, 0, 0, 0]);
    let n = f.import_ordered_batch(e.export_ordered_snapshot().unwrap()).unwrap();
    assert_eq!(n, 1);
    assert!(f.get_transaction(&[1]).is_some());
    f.clear().unwrap();
    assert!(!f.contains(&[1]));
    assert_eq!(f.get_fee_thresholds(), vec![1, 10, 100, 1000]);
}
