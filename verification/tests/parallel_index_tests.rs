use klomang_mempool::parallel_transaction_index::{
    IndexedTransactionEntry, IndexedTransactionStatus, ParallelIndexConfig, ParallelTransactionIndex,
};
use klomang_mempool::transaction::{hash_key, Transaction};

fn create_test_transaction() -> Transaction {
    Transaction { id: klomang_mempool::transaction::Hash::from_bytes([1; 32]), inputs: vec![], outputs: vec![], max_fee_per_gas: 0, encoded_size: 0 }
}

fn tx_with_id(id: u8) -> Transaction {
    Transaction { id: klomang_mempool::transaction::Hash::from_bytes([id; 32]), inputs: vec![], outputs: vec![], max_fee_per_gas: 0, encoded_size: 0 }
}

#[test]
fn test_insert_and_get() {
    let mut index = ParallelTransactionIndex::new(ParallelIndexConfig::default());
    let tx = create_test_transaction();
    let tx_hash = hash_key(&tx.id);

    assert!(index.insert(tx_hash.clone(), tx.clone(), 1000, 256).is_ok());
    assert!(index.contains(&tx_hash));
    assert_eq!(index.len(), 1);

    let retrieved = index.get(&tx_hash);
    assert!(retrieved.is_some());
}

#[test]
fn test_update_status() {
    let mut index = ParallelTransactionIndex::new(ParallelIndexConfig::default());
    let tx = create_test_transaction();
    let tx_hash = hash_key(&tx.id);

    index.insert(tx_hash.clone(), tx, 1000, 256).unwrap();
    assert_eq!(index.get_entry(&tx_hash).unwrap().status, IndexedTransactionStatus::Pending);

    index.update_status(&tx_hash, IndexedTransactionStatus::Validated).unwrap();
    assert_eq!(index.get_entry(&tx_hash).unwrap().status, IndexedTransactionStatus::Validated);

    let stats = index.get_stats();
    assert_eq!(stats.validated_count, 1);
    assert_eq!(stats.pending_count, 0);
}

#[test]
fn parallel_transaction_index_test_remove_transaction() {
    let mut index = ParallelTransactionIndex::new(ParallelIndexConfig::default());
    let tx = create_test_transaction();
    let tx_hash = hash_key(&tx.id);

    index.insert(tx_hash.clone(), tx, 1000, 256).unwrap();
    assert_eq!(index.len(), 1);

    let removed = index.remove(&tx_hash);
    assert!(removed.is_ok());
    assert_eq!(index.len(), 0);
    assert!(!index.contains(&tx_hash));
}

#[test]
fn test_get_by_status() {
    let mut index = ParallelTransactionIndex::new(ParallelIndexConfig::default());

    for i in 0..5 {
        let tx = create_test_transaction();
        let tx_hash = bincode::serialize(&[i as u8]).unwrap();
        index.insert(tx_hash.clone(), tx, 1000 + i as u64, 256).unwrap();

        if i % 2 == 1 {
            index.update_status(&tx_hash, IndexedTransactionStatus::Validated).unwrap();
        }
    }

    let pending = index.get_by_status(IndexedTransactionStatus::Pending);
    let validated = index.get_by_status(IndexedTransactionStatus::Validated);

    assert_eq!(pending.len(), 3);
    assert_eq!(validated.len(), 2);
}

#[test]
fn test_get_top_by_fee_rate() {
    let mut index = ParallelTransactionIndex::new(ParallelIndexConfig::default());

    for i in 0..5 {
        let tx = create_test_transaction();
        let tx_hash = bincode::serialize(&[i as u8]).unwrap();
        let fee = 5000 - (i as u64 * 1000);
        let size = 256;
        index.insert(tx_hash, tx, fee, size).unwrap();
    }

    let top3 = index.get_top_by_fee_rate(3);
    assert_eq!(top3.len(), 3);
}

#[test]
fn test_statistics_consistency() {
    let mut index = ParallelTransactionIndex::new(ParallelIndexConfig::default());
    let tx = create_test_transaction();
    let tx_hash = hash_key(&tx.id);

    index.insert(tx_hash.clone(), tx, 1000, 256).unwrap();
    assert!(index.verify_consistency().is_ok());

    index.update_status(&tx_hash, IndexedTransactionStatus::Validated).unwrap();
    assert!(index.verify_consistency().is_ok());

    index.remove(&tx_hash).unwrap();
    assert!(index.verify_consistency().is_ok());
}

#[test]
fn top_by_fee_rate_orders_highest_first() {
    let mut index = ParallelTransactionIndex::new(ParallelIndexConfig::default());
    // fee rates 10, 30, 20 (fee / 100 bytes)
    index.insert(vec![1], tx_with_id(1), 1000, 100).unwrap();
    index.insert(vec![2], tx_with_id(2), 3000, 100).unwrap();
    index.insert(vec![3], tx_with_id(3), 2000, 100).unwrap();

    let top = index.get_top_by_fee_rate(2);
    assert_eq!(top.len(), 2);
    assert_eq!(top[0].id.as_bytes(), &[2; 32]);
    assert_eq!(top[1].id.as_bytes(), &[3; 32]);

    let all = index.get_top_by_fee_rate(10);
    assert_eq!(all.len(), 3);
    assert_eq!(all[2].id.as_bytes(), &[1; 32]);
}

#[test]
fn insert_fails_when_full() {
    let config = ParallelIndexConfig { num_shards: 4, max_transactions: 2, enable_cleanup: true };
    let mut index = ParallelTransactionIndex::new(config);
    index.insert(vec![1], tx_with_id(1), 10, 10).unwrap();
    index.insert(vec![2], tx_with_id(2), 10, 10).unwrap();
    let r = index.insert(vec![3], tx_with_id(3), 10, 10);
    assert_eq!(r, Err("Transaction index is full".to_string()));
    assert_eq!(index.len(), 2);
}

#[test]
fn missing_transaction_errors() {
    let mut index = ParallelTransactionIndex::new(ParallelIndexConfig::default());
    assert_eq!(
        index.update_status(&[9], IndexedTransactionStatus::Confirmed),
        Err("Transaction not found in index".to_string())
    );
    assert!(index.remove(&[9]).is_err());
    assert!(index.get(&[9]).is_none());
}

#[test]
fn stats_follow_insert_update_remove() {
    let mut index = ParallelTransactionIndex::new(ParallelIndexConfig::default());
    index.insert(vec![1], tx_with_id(1), 500, 100).unwrap();
    index.insert(vec![2], tx_with_id(2), 500, 200).unwrap();
    let s = index.get_stats();
    assert_eq!(s.total_transactions, 2);
    assert_eq!(s.pending_count, 2);
    assert_eq!(s.total_memory_bytes, 100 + 64 + 200 + 64);

    index.update_status(&[2], IndexedTransactionStatus::Confirmed).unwrap();
    assert_eq!(index.count_by_status(IndexedTransactionStatus::Confirmed), 1);
    assert_eq!(index.count_by_status(IndexedTransactionStatus::Pending), 1);

    let e = index.remove(&[1]).unwrap();
    assert_eq!(e.total_fee, 500);
    let s = index.get_stats();
    assert_eq!(s.total_transactions, 1);
    assert_eq!(s.pending_count, 0);
    assert_eq!(s.confirmed_count, 1);
    assert_eq!(s.total_memory_bytes, 200 + 64);

    // insert then remove gives the counters back
    let before = index.get_stats();
    index.insert(vec![7], tx_with_id(7), 1, 50).unwrap();
    index.remove(&[7]).unwrap();
    let after = index.get_stats();
    assert_eq!(before.pending_count, after.pending_count);
    assert_eq!(before.total_memory_bytes, after.total_memory_bytes);
    assert_eq!(before.total_transactions, after.total_transactions);
    assert!(index.verify_consistency().is_ok());
}

#[test]
fn replacing_an_entry_breaks_the_counts() {
    // a second insert under the same hash counts the new entry as pending
    // without taking the old one out of its count
    let mut index = ParallelTransactionIndex::new(ParallelIndexConfig::default());
    index.insert(vec![1], tx_with_id(1), 500, 100).unwrap();
    index.insert(vec![1], tx_with_id(1), 500, 100).unwrap();
    assert_eq!(index.len(), 1);
    assert_eq!(index.get_stats().pending_count, 2);
    assert_eq!(index.verify_consistency(), Err("Index statistics mismatch".to_string()));
}

#[test]
fn cleanup_removes_old_entries() {
    let mut index = ParallelTransactionIndex::new(ParallelIndexConfig::default());
    index.insert_at(vec![1], tx_with_id(1), 10, 10, 1_000).unwrap();
    index.insert_at(vec![2], tx_with_id(2), 10, 10, 5_000).unwrap();
    index.insert_at(vec![3], tx_with_id(3), 10, 10, 9_000).unwrap();
    let n = index.cleanup_old_transactions_at(3_000, 9_000);
    assert_eq!(n, 2);
    assert!(!index.contains(&[1]));
    assert!(!index.contains(&[2]));
    assert!(index.contains(&[3]));
    assert_eq!(index.get_stats().pending_count, 1);
    assert!(index.verify_consistency().is_ok());
}

#[test]
fn entry_fee_rate_and_age() {
    let e = IndexedTransactionEntry::new_at(tx_with_id(1), 1000, 300, 100);
    assert_eq!(e.fee_rate(), 3);
    assert_eq!(e.age_ns_at(150), 50);
    assert_eq!(e.age_ns_at(50), 0);
    let z = IndexedTransactionEntry::new_at(tx_with_id(1), 1000, 0, 100);
    assert_eq!(z.fee_rate(), 0);
}

#[test]
fn clear_empties_the_index() {
    let mut index = ParallelTransactionIndex::new(ParallelIndexConfig::default());
    index.insert(vec![1], tx_with_id(1), 10, 10).unwrap();
    index.clear();
    assert!(index.is_empty());
    assert_eq!(index.get_stats().pending_count, 0);
    assert!(index.verify_consistency().is_ok());
}
