use klomang_mempool::memory_limiter::{MempoolLimiter, MempoolLimiterConfig, TransactionWeight};

fn weight(total: usize) -> TransactionWeight {
    TransactionWeight { vsize: total, overhead: 0, total_weight: total }
}

#[test]
fn test_mempool_limiter_creation() {
    let limiter = MempoolLimiter::new(MempoolLimiterConfig::default());
    assert_eq!(limiter.current_weight(), 0);
}

#[test]
fn test_add_remove_tx_weight() {
    let mut limiter = MempoolLimiter::new(MempoolLimiterConfig::default());
    let tx_hash = vec![1, 2, 3, 4];
    let weight = TransactionWeight { vsize: 100, overhead: 50, total_weight: 150 };

    assert!(limiter.add_tx_weight(tx_hash.clone(), weight).is_ok());
    assert_eq!(limiter.current_weight(), 150);

    let freed = limiter.remove_tx_weight(&tx_hash);
    assert_eq!(freed, 150);
    assert_eq!(limiter.current_weight(), 0);
}

#[test]
fn test_memory_stats() {
    let mut limiter = MempoolLimiter::new(MempoolLimiterConfig { max_size_bytes: 1000, ..Default::default() });
    let tx_hash = vec![1, 2, 3];
    let weight = TransactionWeight { vsize: 100, overhead: 50, total_weight: 150 };
    let _ = limiter.add_tx_weight(tx_hash, weight);
    let stats = limiter.get_stats();
    assert_eq!(stats.current_weight, 150);
    assert_eq!(stats.max_weight, 1000);
    assert_eq!(stats.transaction_count, 1);
    assert_eq!(stats.average_weight_per_tx, 150);
}

#[test]
fn removing_an_untracked_hash_frees_nothing() {
    let mut limiter = MempoolLimiter::new(MempoolLimiterConfig::default());
    assert_eq!(limiter.remove_tx_weight(&[9]), 0);
    assert_eq!(limiter.current_weight(), 0);
}

#[test]
fn limit_check_counts_the_new_weight() {
    let mut limiter = MempoolLimiter::new(MempoolLimiterConfig { max_size_bytes: 100, ..Default::default() });
    limiter.add_tx_weight(vec![1], weight(60)).unwrap();
    assert!(!limiter.would_exceed_limit(40));
    assert!(limiter.would_exceed_limit(41));
    assert_eq!(limiter.max_weight(), 100);
}

#[test]
fn cascade_takes_descendants_and_unlinks_the_parent() {
    let mut limiter = MempoolLimiter::new(MempoolLimiterConfig::default());
    for (h, w) in [(1u8, 10usize), (2, 20), (3, 30), (4, 40)] {
        limiter.add_tx_weight(vec![h], weight(w)).unwrap();
    }
    // 4 -> 1 -> 2 -> 3, and 1 -> 3 as well
    limiter.register_dependency(vec![4], vec![1]);
    limiter.register_dependency(vec![1], vec![2]);
    limiter.register_dependency(vec![2], vec![3]);
    limiter.register_dependency(vec![1], vec![3]);
    let r = limiter.evict_transaction_cascade(&[1]);
    assert_eq!(r.evicted_hashes[0], vec![1]);
    // 3 is named twice: once under 1, once under 2.
    assert_eq!(r.cascade_count, 3);
    assert_eq!(r.evicted_hashes.len(), 4);
    assert_eq!(r.freed_weight, 60);
    assert_eq!(r.freed_bytes, 60);
    assert_eq!(limiter.current_weight(), 40);
    let entries = limiter.candidate_entries();
    assert_eq!(entries, vec![(vec![4], 40, 0)]);
}

#[test]
fn unregistering_the_last_child_drops_the_parent() {
    let mut limiter = MempoolLimiter::new(MempoolLimiterConfig::default());
    limiter.add_tx_weight(vec![1], weight(5)).unwrap();
    limiter.register_dependency(vec![1], vec![2]);
    assert_eq!(limiter.candidate_entries(), vec![(vec![1], 5, 1)]);
    limiter.unregister_dependency(&[1], &[2]);
    assert_eq!(limiter.candidate_entries(), vec![(vec![1], 5, 0)]);
}

#[test]
fn making_space_stops_at_half_the_limit() {
    let mut limiter = MempoolLimiter::new(MempoolLimiterConfig { max_size_bytes: 100, ..Default::default() });
    limiter.add_tx_weight(vec![1], weight(30)).unwrap();
    limiter.add_tx_weight(vec![2], weight(30)).unwrap();
    limiter.add_tx_weight(vec![3], weight(30)).unwrap();
    // 90 + 20 = 110 > 100: evict until 110 - freed <= 50.
    let r = limiter.make_space_for(20, &vec![vec![2], vec![1], vec![3]]);
    assert_eq!(r.freed_weight, 60);
    assert_eq!(r.evicted_hashes, vec![vec![2], vec![1]]);
    assert_eq!(limiter.current_weight(), 30);
    // Nothing to do when the weight fits.
    let none = limiter.make_space_for(10, &vec![vec![3]]);
    assert!(none.evicted_hashes.is_empty());
    assert_eq!(limiter.current_weight(), 30);
}

#[test]
fn clearing_resets_the_counter() {
    let mut limiter = MempoolLimiter::new(MempoolLimiterConfig::default());
    limiter.add_tx_weight(vec![1], weight(5)).unwrap();
    limiter.clear();
    assert_eq!(limiter.current_weight(), 0);
    assert!(limiter.candidate_entries().is_empty());
}

#[test]
fn re_adding_a_weight_replaces_it() {
    let mut limiter = MempoolLimiter::new(MempoolLimiterConfig::default());
    let w = TransactionWeight { vsize: 100, overhead: 50, total_weight: 150 };
    limiter.add_tx_weight(vec![1], w.clone()).unwrap();
    limiter.add_tx_weight(vec![1], w).unwrap();
    assert_eq!(limiter.current_weight(), 150);
    assert_eq!(limiter.get_stats().transaction_count, 1);
    limiter.add_tx_weight(vec![1], weight(40)).unwrap();
    assert_eq!(limiter.current_weight(), 40);
}
