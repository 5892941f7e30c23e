use klomang_mempool::admission::{AdmissionError, Placement, ValidationVerdict};
use klomang_mempool::memory_limiter::TransactionWeight;
use klomang_mempool::pool::{MempoolSnapshot, PoolConfig, PoolEntry};
use klomang_mempool::transaction::{hash_key, Transaction, TxInput};
use klomang_mempool::transaction_pool::TransactionPool;

fn spending(id: u8, prev: u8) -> Transaction {
    Transaction {
        id: klomang_mempool::transaction::Hash::from_bytes([id; 32]),
        inputs: vec![TxInput { prev_tx: klomang_mempool::transaction::Hash::from_bytes([prev; 32]), index: 0, pubkey: vec![] }],
        outputs: vec![],
        max_fee_per_gas: 0,
        encoded_size: 0,
    }
}

fn weight() -> TransactionWeight {
    TransactionWeight { vsize: 100, overhead: 50, total_weight: 150 }
}

fn offer(pool: &mut TransactionPool, tx: Transaction, fee: u64, verdict: Option<ValidationVerdict>) -> Result<Placement, AdmissionError> {
    pool.add_transaction_at(tx, fee, 100, true, 1, true, weight(), &Vec::new(), verdict, 1000, 1_000_000, 1_000_000_000)
}

#[test]
fn a_valid_transaction_enters_the_main_pool() {
    let mut pool = TransactionPool::new(PoolConfig::default());
    let tx = spending(1, 50);
    let h = hash_key(&tx.id);
    assert!(matches!(offer(&mut pool, tx, 1000, None), Ok(Placement::MainPool)));
    assert_eq!(pool.size(), 1);
    assert!(pool.contains(&h));
    let entry = pool.get(&h).unwrap();
    assert_eq!(entry.total_fee, 1000);
    assert_eq!(entry.arrival_time, 1000);
}

#[test]
fn an_outranked_double_spend_is_refused() {
    let mut pool = TransactionPool::new(PoolConfig::default());
    offer(&mut pool, spending(1, 50), 1000, None).unwrap();
    let r = offer(&mut pool, spending(2, 50), 500, None);
    assert_eq!(r.err(), Some(AdmissionError::OutrankedByConflict));
    assert_eq!(pool.size(), 1);
    assert!(pool.contains(&hash_key(&klomang_mempool::transaction::Hash::from_bytes([1; 32]))));
}

#[test]
fn a_higher_fee_double_spend_displaces_the_old_one() {
    let mut pool = TransactionPool::new(PoolConfig::default());
    offer(&mut pool, spending(1, 50), 1000, None).unwrap();
    assert!(matches!(offer(&mut pool, spending(3, 50), 2000, None), Ok(Placement::MainPool)));
    assert_eq!(pool.size(), 1);
    assert!(!pool.contains(&hash_key(&klomang_mempool::transaction::Hash::from_bytes([1; 32]))));
    assert!(pool.contains(&hash_key(&klomang_mempool::transaction::Hash::from_bytes([3; 32]))));
}

#[test]
fn missing_inputs_send_a_transaction_to_the_orphan_pool() {
    let mut pool = TransactionPool::new(PoolConfig::default());
    match offer(&mut pool, spending(1, 50), 1000, Some(ValidationVerdict::MissingInputs(vec![0]))) {
        Ok(Placement::OrphanPool(m)) => assert_eq!(m, vec![0]),
        _ => panic!("expected the orphan pool"),
    }
    assert_eq!(pool.size(), 0);
}

#[test]
fn refusals_come_in_order() {
    let mut pool = TransactionPool::new(PoolConfig::default());
    let r = pool.add_transaction_at(spending(1, 50), 1000, 100, true, 1, false, weight(), &Vec::new(), None, 1000, 0, 0);
    assert_eq!(r.err(), Some(AdmissionError::RateLimited));
    let r = pool.add_transaction_at(spending(1, 50), 1000, 100, false, 1, false, weight(), &Vec::new(), None, 1000, 0, 0);
    assert_eq!(r.err(), Some(AdmissionError::ResourceConstraints));
    let r = offer(&mut pool, spending(1, 50), 1000, Some(ValidationVerdict::DoubleSpent));
    assert_eq!(r.err(), Some(AdmissionError::DoubleSpent));
    assert_eq!(pool.size(), 0);

    let mut cfg = PoolConfig::default();
    cfg.min_fee_rate = 20;
    let mut strict = TransactionPool::new(cfg);
    let r = offer(&mut strict, spending(1, 50), 1000, None);
    assert_eq!(r.err(), Some(AdmissionError::BelowMinimumFee { fee_rate: 10, threshold: 20 }));
    assert_eq!(AdmissionError::BelowMinimumFee { fee_rate: 10, threshold: 20 }.message(),
        "Transaction fee rate 10 sat/B below current minimum 20 sat/B");

    let mut small_cfg = PoolConfig::default();
    small_cfg.max_pool_size = 1;
    let mut small = TransactionPool::new(small_cfg);
    offer(&mut small, spending(1, 50), 1000, None).unwrap();
    let r = offer(&mut small, spending(2, 51), 1000, None);
    assert_eq!(r.err(), Some(AdmissionError::PoolFull { max_pool_size: 1 }));
}

#[test]
fn removal_takes_the_entry_out() {
    let mut pool = TransactionPool::new(PoolConfig::default());
    let tx = spending(1, 50);
    let h = hash_key(&tx.id);
    offer(&mut pool, tx, 1000, None).unwrap();
    let e = pool.remove(&h).unwrap();
    assert_eq!(e.total_fee, 1000);
    assert!(pool.remove(&h).is_none());
    assert_eq!(pool.size(), 0);
}

#[test]
fn listings_and_upkeep() {
    let mut pool = TransactionPool::new(PoolConfig::default());
    offer(&mut pool, spending(1, 50), 1000, None).unwrap();
    offer(&mut pool, spending(2, 51), 2000, None).unwrap();
    let all = pool.get_all();
    assert_eq!(all.len(), 2);
    let mut fees: Vec<u64> = all.iter().map(|e| e.total_fee).collect();
    fees.sort();
    assert_eq!(fees, vec![1000, 2000]);
    assert_eq!(pool.get_by_status(klomang_mempool::pool::TransactionStatus::Pending).len(), 2);
    assert!(pool.get_validated().is_empty());
    assert!(pool.get_orphans().is_empty());
    // pending entries never expire
    assert_eq!(pool.cleanup_expired_at(u64::MAX), 0);
    assert_eq!(pool.size(), 2);

    assert_eq!(pool.get_current_min_fee_rate(), 1);
    pool.set_min_fee_rate(7).unwrap();
    assert_eq!(pool.get_current_min_fee_rate(), 7);

    pool.clear();
    assert_eq!(pool.size(), 0);
    assert!(pool.get_all().is_empty());
}

#[test]
fn statistics_count_and_add_up_the_entries() {
    let mut pool = TransactionPool::new(PoolConfig::default());
    offer(&mut pool, spending(1, 50), 1000, None).unwrap();
    offer(&mut pool, spending(2, 51), 2000, None).unwrap();
    let st = pool.get_stats();
    assert_eq!(st.total_count, 2);
    assert_eq!(st.pending_count, 2);
    assert_eq!(st.validated_count, 0);
    assert_eq!(st.total_fees, 3000);
    assert_eq!(st.total_size_bytes, 200);
}

#[test]
fn the_orphan_pool_holds_four_fifths_of_the_configured_size() {
    let config = PoolConfig { max_orphan_size: 1, ..PoolConfig::default() };
    let mut pool = TransactionPool::new(config);
    let r = offer(&mut pool, spending(4, 60), 1000, Some(ValidationVerdict::MissingInputs(vec![0])));
    assert_eq!(r.err(), Some(AdmissionError::OrphanPoolFull));

    let config = PoolConfig { max_orphan_size: 5, ..PoolConfig::default() };
    let mut pool = TransactionPool::new(config);
    let r = offer(&mut pool, spending(4, 60), 1000, Some(ValidationVerdict::MissingInputs(vec![0])));
    assert!(matches!(r, Ok(Placement::OrphanPool(_))));
}

#[test]
fn the_source_key_is_the_first_signer_or_anonymous() {
    let pool = TransactionPool::new(PoolConfig::default());
    let mut tx = spending(1, 50);
    assert_eq!(pool.derive_source_key(&tx), b"anonymous_source".to_vec());
    tx.inputs[0].pubkey = vec![7, 8, 9];
    assert_eq!(pool.derive_source_key(&tx), vec![7, 8, 9]);
    let empty = Transaction { inputs: vec![], ..spending(2, 50) };
    assert_eq!(pool.derive_source_key(&empty), b"anonymous_source".to_vec());
}

#[test]
fn a_transaction_spending_another_output_of_the_same_parent_is_no_rival() {
    let mut pool = TransactionPool::new(PoolConfig::default());
    offer(&mut pool, spending(1, 50), 1000, None).unwrap();
    let mut other = spending(2, 50);
    other.inputs[0].index = 1;
    assert!(matches!(offer(&mut pool, other, 500, None), Ok(Placement::MainPool)));
    assert_eq!(pool.size(), 2);
}

#[test]
fn orphans_waiting_on_a_new_transaction_are_handed_back() {
    let mut pool = TransactionPool::new(PoolConfig::default());
    let mut parent = spending(20, 60);
    parent.outputs = vec![klomang_mempool::transaction::TxOutput {
        value: 5,
        pubkey_hash: klomang_mempool::transaction::Hash::from_bytes([0; 32]),
    }];
    let child = spending(21, 20);
    let r = offer(&mut pool, child, 1000, Some(ValidationVerdict::MissingInputs(vec![0])));
    assert!(matches!(r, Ok(Placement::OrphanPool(_))));
    assert!(matches!(offer(&mut pool, parent.clone(), 1000, None), Ok(Placement::MainPool)));
    let adopted = pool.adopt_waiting_orphans(&parent);
    assert_eq!(adopted.len(), 1);
    assert_eq!(adopted[0].id, klomang_mempool::transaction::Hash::from_bytes([21; 32]));
    assert!(pool.adopt_waiting_orphans(&parent).is_empty());
}

#[test]
fn a_snapshot_keeps_its_order_and_a_later_duplicate_in_place() {
    let first = spending(1, 50);
    let second = spending(2, 51);
    let mut again = spending(1, 52);
    again.encoded_size = 9;
    let entries = vec![
        PoolEntry::new_at(first, 10, 100, 1),
        PoolEntry::new_at(second, 10, 100, 2),
        PoolEntry::new_at(again, 10, 100, 3),
    ];
    let snap = MempoolSnapshot::new(&entries, 7);
    assert_eq!(snap.block_height(), 7);
    let h1 = hash_key(&klomang_mempool::transaction::Hash::from_bytes([1; 32]));
    assert!(snap.contains(&h1));
    assert_eq!(snap.get_transaction(&h1).unwrap().encoded_size, 9);
    assert!(snap.get_transaction(&[9u8; 32]).is_none());
    let all = snap.get_all_transactions();
    assert_eq!(all.len(), 2);
    assert_eq!(all[0].encoded_size, 9);
    assert_eq!(all[1].id, klomang_mempool::transaction::Hash::from_bytes([2; 32]));
}

#[test]
fn waiting_raises_the_effective_fee_rate_a_tenth_per_hour_up_to_three_times() {
    let mut pool = TransactionPool::new(PoolConfig::default());
    let tx = spending(1, 50);
    let h = hash_key(&tx.id);
    offer(&mut pool, tx, 1000, None).unwrap();
    assert_eq!(pool.get_effective_fee_rate_at(&h, 1000), 10);
    assert_eq!(pool.get_effective_fee_rate_at(&h, 500), 10);
    assert_eq!(pool.get_effective_fee_rate_at(&h, 1000 + 3599), 10);
    assert_eq!(pool.get_effective_fee_rate_at(&h, 1000 + 3 * 3600), 13);
    assert_eq!(pool.get_effective_fee_rate_at(&h, 1000 + 50 * 3600), 30);
    assert_eq!(pool.get_effective_fee_rate_at(&[9u8; 32], 1000), 0);
}

#[test]
fn a_long_waiting_transaction_outranks_a_slightly_higher_newcomer() {
    let mut pool = TransactionPool::new(PoolConfig::default());
    offer(&mut pool, spending(1, 50), 1000, None).unwrap();
    let later = 1000 + 5 * 3600;
    let r = pool.add_transaction_at(spending(2, 50), 1400, 100, true, 1, true, weight(), &Vec::new(), None,
        later, later * 1000, later * 1_000_000_000);
    assert_eq!(r.err(), Some(AdmissionError::OutrankedByConflict));
    let r = pool.add_transaction_at(spending(3, 50), 1600, 100, true, 1, true, weight(), &Vec::new(), None,
        later, later * 1000, later * 1_000_000_000);
    assert!(matches!(r, Ok(Placement::MainPool)));
}

#[test]
fn the_pool_snapshots_and_tends_its_orphans() {
    let mut pool = TransactionPool::new(PoolConfig::default());
    offer(&mut pool, spending(1, 50), 1000, None).unwrap();
    let r = offer(&mut pool, spending(2, 70), 1000, Some(ValidationVerdict::MissingInputs(vec![0])));
    assert!(matches!(r, Ok(Placement::OrphanPool(_))));

    let snap = pool.create_snapshot(12);
    assert_eq!(snap.block_height(), 12);
    assert!(snap.contains(&hash_key(&klomang_mempool::transaction::Hash::from_bytes([1; 32]))));
    assert_eq!(snap.get_all_transactions().len(), 1);

    let stats = pool.get_orphan_stats().unwrap();
    assert_eq!(stats.total_orphans, 1);
    assert_eq!(stats.unique_missing_parents, 1);
    assert!(pool.verify_orphan_consistency().is_ok());

    // the orphan joined at 1_000_000_000 ns and lives 600 s
    assert_eq!(pool.cleanup_expired_orphans_at(1_000_000_000 + 600_000_000_000), 0);
    assert_eq!(pool.cleanup_expired_orphans_at(1_000_000_000 + 600_000_000_001), 1);
    assert_eq!(pool.get_orphan_stats().unwrap().total_orphans, 0);
}

#[test]
fn the_main_pool_is_indexed_by_fee_rate_arrival_and_dependents() {
    let mut pool = TransactionPool::new(PoolConfig::default());
    offer(&mut pool, spending(1, 50), 1000, None).unwrap();
    offer(&mut pool, spending(2, 51), 2000, None).unwrap();
    let h1 = hash_key(&klomang_mempool::transaction::Hash::from_bytes([1; 32]));
    let h2 = hash_key(&klomang_mempool::transaction::Hash::from_bytes([2; 32]));

    let high = pool.query_by_fee_range(15, 30).unwrap();
    assert_eq!(high.len(), 1);
    assert_eq!(high[0].tx_hash, h2);
    assert_eq!(high[0].fee_rate, 20);
    assert_eq!(pool.get_top_n_by_fee(1).unwrap()[0].tx_hash, h2);
    assert_eq!(pool.query_by_time_range(0, 5000).unwrap().len(), 2);
    assert_eq!(pool.get_transactions_before_time(999).unwrap().len(), 0);
    assert_eq!(pool.get_transactions_before_time(1000).unwrap().len(), 2);
    assert_eq!(pool.query_by_min_dependents(1).unwrap().len(), 0);
    assert_eq!(pool.get_dependency_hubs(5).unwrap().len(), 2);
    assert_eq!(pool.query_combined(5, 15, 0, 5000, 0).unwrap().len(), 1);

    pool.remove(&h1);
    assert_eq!(pool.query_by_time_range(0, 5000).unwrap().len(), 1);
    pool.clear();
    assert_eq!(pool.get_dependency_hubs(5).unwrap().len(), 0);
}

#[test]
fn the_main_pool_keeps_a_deterministic_order() {
    let mut pool = TransactionPool::new(PoolConfig::default());
    offer(&mut pool, spending(1, 50), 1000, None).unwrap();
    offer(&mut pool, spending(2, 51), 2000, None).unwrap();
    let h2 = hash_key(&klomang_mempool::transaction::Hash::from_bytes([2; 32]));
    let ordered = pool.get_ordered_transactions_deterministic(10).unwrap();
    assert_eq!(ordered.len(), 2);
    assert_eq!(ordered[0], (h2.clone(), 20));
    assert_eq!(pool.get_ordered_transactions_deterministic(0).unwrap().len(), 1);
    pool.remove(&h2);
    assert_eq!(pool.get_ordered_transactions_deterministic(10).unwrap().len(), 1);
}

#[test]
fn a_fee_rate_at_the_top_of_the_range_has_no_ordering_bucket() {
    let mut pool = TransactionPool::new(PoolConfig::default());
    let r = pool.add_transaction_at(spending(1, 50), u64::MAX, 1, true, 1, true, weight(), &Vec::new(), None,
        1000, 1_000_000, 1_000_000_000);
    assert_eq!(r.err(), Some(AdmissionError::OrderingRejected));
    assert_eq!(AdmissionError::OrderingRejected.message(), "Deterministic ordering error: No suitable bucket for fee rate");
}
