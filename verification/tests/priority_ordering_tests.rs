use std::cmp::Ordering;

use klomang_mempool::priority_ordering::{PrioritizedTransaction, PriorityBuckets, PriorityOrderingConfig};

fn create_test_tx(hash: usize, fee_rate: u64, arrival_time: u64) -> PrioritizedTransaction {
    let hash_vec = vec![(hash & 0xFF) as u8; 32];
    PrioritizedTransaction::new(hash_vec, fee_rate, arrival_time, 200, fee_rate * 200)
}

#[test]
fn test_priority_buckets_creation() {
    let config = PriorityOrderingConfig::default();
    let buckets = PriorityBuckets::new(config);

    assert_eq!(buckets.bucket_count(), 5);
    assert_eq!(buckets.total_count(), 0);
}

#[test]
fn test_deterministic_insert() {
    let config = PriorityOrderingConfig::default();
    let mut buckets = PriorityBuckets::new(config);

    let tx1 = create_test_tx(1, 50, 1000);
    let tx2 = create_test_tx(2, 50, 1001);

    assert!(buckets.insert(tx1.clone()).is_ok());
    assert!(buckets.insert(tx2.clone()).is_ok());

    assert!(buckets.contains(&tx1.tx_hash));
    assert!(buckets.contains(&tx2.tx_hash));
}

#[test]
fn test_tie_breaking_lexicographic() {
    let config = PriorityOrderingConfig::default();
    let mut buckets = PriorityBuckets::new(config);

    let hash1 = vec![0x01u8; 32];
    let hash2 = vec![0x02u8; 32];

    let tx1 = PrioritizedTransaction::new(hash1.clone(), 5, 1000, 200, 1000);
    let tx2 = PrioritizedTransaction::new(hash2.clone(), 5, 1000, 200, 1000);

    assert!(hash1 < hash2);

    assert!(buckets.insert(tx1).is_ok());
    assert!(buckets.insert(tx2).is_ok());

    let ordered = buckets.get_ordered_transactions(10);
    assert!(ordered.len() >= 1);
}

#[test]
fn priority_ordering_test_remove_transaction() {
    let config = PriorityOrderingConfig::default();
    let mut buckets = PriorityBuckets::new(config);

    let tx = create_test_tx(1, 50, 1000);
    let tx_hash = tx.tx_hash.clone();

    assert!(buckets.insert(tx).is_ok());
    assert_eq!(buckets.total_count(), 1);

    let removed = buckets.remove(&tx_hash);
    assert!(removed.is_some());
    assert_eq!(buckets.total_count(), 0);
}

#[test]
fn test_get_ordered_transactions() {
    let config = PriorityOrderingConfig::default();
    let mut buckets = PriorityBuckets::new(config);

    let tx_low = create_test_tx(1, 5, 1000);
    let tx_medium = create_test_tx(2, 50, 1000);
    let tx_high = create_test_tx(3, 500, 1000);

    assert!(buckets.insert(tx_low).is_ok());
    assert!(buckets.insert(tx_medium).is_ok());
    assert!(buckets.insert(tx_high).is_ok());

    let ordered = buckets.get_ordered_transactions(3);
    assert_eq!(ordered.len(), 3);

    assert!(ordered[0].fee_rate >= ordered[1].fee_rate);
    assert!(ordered[1].fee_rate >= ordered[2].fee_rate);
}

#[test]
fn test_bucket_statistics() {
    let config = PriorityOrderingConfig::default();
    let mut buckets = PriorityBuckets::new(config);

    let tx1 = create_test_tx(1, 5, 1000);
    let tx2 = create_test_tx(2, 50, 1001);

    assert!(buckets.insert(tx1).is_ok());
    assert!(buckets.insert(tx2).is_ok());

    let stats = buckets.get_statistics();
    assert_eq!(stats.total_transactions, 2);
    assert!(stats.total_fees > 0);
}

#[test]
fn priority_ordering_test_verify_consistency() {
    let config = PriorityOrderingConfig::default();
    let mut buckets = PriorityBuckets::new(config);

    let tx = create_test_tx(1, 50, 1000);
    assert!(buckets.insert(tx).is_ok());

    assert!(buckets.verify_consistency().is_ok());
}

#[test]
fn score_is_fee_rate_and_arrival_scaled() {
    let tx = PrioritizedTransaction::new(vec![1], 50, 1234, 10, 500);
    assert_eq!(tx.priority_score, 50 * 100_000 + 1234);
}

#[test]
fn comparison_prefers_score_then_smaller_hash() {
    let a = PrioritizedTransaction::new(vec![2], 10, 0, 1, 1);
    let b = PrioritizedTransaction::new(vec![1], 9, 0, 1, 1);
    assert_eq!(a.compare_deterministic(&b), Ordering::Less);
    assert_eq!(b.compare_deterministic(&a), Ordering::Greater);
    let c = PrioritizedTransaction::new(vec![1], 10, 0, 1, 1);
    assert_eq!(c.compare_deterministic(&a), Ordering::Less);
    assert_eq!(a.compare_deterministic(&a.clone()), Ordering::Equal);
}

#[test]
fn same_bucket_keeps_deterministic_order_whatever_the_arrival() {
    let txs = vec![
        create_test_tx(3, 20, 5),
        create_test_tx(1, 20, 5),
        create_test_tx(2, 30, 5),
        create_test_tx(4, 20, 7),
    ];
    let mut forward = PriorityBuckets::new(PriorityOrderingConfig::default());
    for t in txs.iter() {
        forward.insert(t.clone()).unwrap();
    }
    let mut backward = PriorityBuckets::new(PriorityOrderingConfig::default());
    for t in txs.iter().rev() {
        backward.insert(t.clone()).unwrap();
    }
    let f: Vec<Vec<u8>> = forward.get_ordered_transactions(10).into_iter().map(|t| t.tx_hash).collect();
    let b: Vec<Vec<u8>> = backward.get_ordered_transactions(10).into_iter().map(|t| t.tx_hash).collect();
    assert_eq!(f, b);
    assert_eq!(f, vec![vec![2u8; 32], vec![4u8; 32], vec![1u8; 32], vec![3u8; 32]]);
    assert!(forward.verify_consistency().is_ok());
}

#[test]
fn limit_zero_still_yields_one() {
    let mut buckets = PriorityBuckets::new(PriorityOrderingConfig::default());
    buckets.insert(create_test_tx(1, 5, 0)).unwrap();
    buckets.insert(create_test_tx(2, 6, 0)).unwrap();
    assert_eq!(buckets.get_ordered_transactions(0).len(), 1);
}

#[test]
fn highest_bucket_comes_first() {
    let mut buckets = PriorityBuckets::new(PriorityOrderingConfig::default());
    buckets.insert(create_test_tx(1, 0, 0)).unwrap();
    buckets.insert(create_test_tx(2, 5000, 0)).unwrap();
    let ordered = buckets.get_ordered_transactions(10);
    assert_eq!(ordered[0].fee_rate, 5000);
    assert_eq!(buckets.bucket_counts(), vec![1, 0, 0, 0, 1]);
    let mut it = buckets.iter_ordered();
    assert_eq!(it.next().unwrap().fee_rate, 0);
    assert_eq!(it.next().unwrap().fee_rate, 5000);
    assert!(it.next().is_none());
}

#[test]
fn errors_of_insert() {
    let mut disabled = PriorityBuckets::new(PriorityOrderingConfig { fee_rate_thresholds: vec![10], deterministic_ordering: false });
    assert_eq!(disabled.insert(create_test_tx(1, 1, 0)), Err("Deterministic ordering is disabled".to_string()));
    let mut buckets = PriorityBuckets::new(PriorityOrderingConfig::default());
    assert_eq!(buckets.insert(create_test_tx(1, u64::MAX, 0)).unwrap_err(), "No suitable bucket for fee rate");
    assert_eq!(buckets.get_bucket_transactions(9).unwrap_err(), "Bucket 9 not found");
}

#[test]
fn duplicate_hashes_break_the_strict_order() {
    let mut buckets = PriorityBuckets::new(PriorityOrderingConfig::default());
    buckets.insert(create_test_tx(1, 5, 0)).unwrap();
    buckets.insert(create_test_tx(1, 5, 0)).unwrap();
    assert_eq!(
        buckets.verify_consistency().unwrap_err(),
        "Transaction not ordered correctly relative to peer"
    );
}

#[test]
fn statistics_per_bucket() {
    let mut buckets = PriorityBuckets::new(PriorityOrderingConfig::default());
    buckets.insert(create_test_tx(1, 50, 0)).unwrap();
    buckets.insert(create_test_tx(2, 60, 0)).unwrap();
    let stats = buckets.get_statistics();
    assert_eq!(stats.total_fees, 50 * 200 + 60 * 200);
    let info = &stats.bucket_info[2];
    assert_eq!((info.lower_bound, info.upper_bound), (10, 100));
    assert_eq!(info.transaction_count, 2);
    assert_eq!(info.average_fee, (50 * 200 + 60 * 200) / 2);
    assert_eq!(buckets.fee_thresholds(), vec![1, 10, 100, 1000]);
}
