use klomang_mempool::parallel_partitioning::{ConflictFreePartitioner, PartitionConfig};
use klomang_mempool::transaction::{Transaction, TxInput, TxOutput};

fn create_test_tx(prev: u8) -> Transaction {
    Transaction {
        id: klomang_mempool::transaction::Hash::from_bytes([1u8; 32]),
        inputs: vec![TxInput { prev_tx: klomang_mempool::transaction::Hash::from_bytes([prev; 32]), index: 0, pubkey: vec![] }],
        outputs: vec![TxOutput { value: 1000, pubkey_hash: klomang_mempool::transaction::Hash::from_bytes([2u8; 32]) }],
        max_fee_per_gas: 0,
        encoded_size: 0,
    }
}

fn tx_with(id: u8, prevs: &[(u8, u32)]) -> Transaction {
    Transaction {
        id: klomang_mempool::transaction::Hash::from_bytes([id; 32]),
        inputs: prevs.iter().map(|(p, i)| TxInput { prev_tx: klomang_mempool::transaction::Hash::from_bytes([*p; 32]), index: *i, pubkey: vec![] }).collect(),
        outputs: vec![],
        max_fee_per_gas: 0,
        encoded_size: 0,
    }
}

#[test]
fn test_partitioner_creation() {
    let partitioner = ConflictFreePartitioner::new();
    assert_eq!(partitioner.config.num_shards, 4);
}

#[test]
fn test_partition_distribution() {
    let config = PartitionConfig { num_shards: 4, detect_conflicts: true, max_per_shard: 1000 };
    let partitioner = ConflictFreePartitioner::with_config(config);
    let mut txs = Vec::new();
    for i in 0..8 {
        txs.push(create_test_tx(i as u8));
    }
    let result = partitioner.partition(txs).unwrap();
    let distribution = ConflictFreePartitioner::analyze_distribution(&result);
    assert_eq!(distribution.len(), 4);
}

#[test]
fn test_partition_statistics() {
    let partitioner = ConflictFreePartitioner::new();
    let mut txs = Vec::new();
    for i in 0..10 {
        txs.push(create_test_tx(i as u8));
    }
    let result = partitioner.partition(txs).unwrap();
    let stats = ConflictFreePartitioner::get_statistics(&result);
    assert_eq!(stats.total_transactions, 10);
    assert!(stats.num_shards > 0);
}

#[test]
fn same_first_outpoint_same_shard_and_reported_as_conflict() {
    let partitioner = ConflictFreePartitioner::new();
    let txs = vec![tx_with(1, &[(9, 0)]), tx_with(2, &[(9, 0)]), tx_with(3, &[(8, 1)])];
    let result = partitioner.partition(txs).unwrap();
    let s1 = *result.tx_to_shard.get(&vec![1; 32]).unwrap();
    let s2 = *result.tx_to_shard.get(&vec![2; 32]).unwrap();
    assert_eq!(s1, s2);
    assert_eq!(ConflictFreePartitioner::conflict_count(&result), 1);
    assert!(ConflictFreePartitioner::verify_partition_safety(&result).is_err());
    let stats = ConflictFreePartitioner::get_statistics(&result);
    assert_eq!(stats.total_transactions, 3);
    assert_eq!(stats.total_outpoints, 2);
    assert_eq!(stats.num_shards, 4);
}

#[test]
fn distinct_outpoints_are_safe() {
    let partitioner = ConflictFreePartitioner::new();
    let txs = vec![tx_with(1, &[(9, 0)]), tx_with(2, &[(8, 0)])];
    let result = partitioner.partition(txs).unwrap();
    assert_eq!(ConflictFreePartitioner::verify_partition_safety(&result), Ok(()));
    assert_eq!(ConflictFreePartitioner::conflict_count(&result), 0);
}

#[test]
fn a_full_shard_stops_the_partitioning() {
    let config = PartitionConfig { num_shards: 2, detect_conflicts: false, max_per_shard: 1 };
    let partitioner = ConflictFreePartitioner::with_config(config);
    let txs = vec![tx_with(1, &[(9, 0)]), tx_with(2, &[(9, 0)])];
    let err = partitioner.partition(txs).err().unwrap();
    let o = klomang_mempool::conflict::OutPoint::new(vec![9; 32], 0);
    let shard = ConflictFreePartitioner::hash_to_shard(&o, 2);
    assert_eq!(err, format!("Shard {} exceeds max capacity 1", shard));
}

#[test]
fn conflicts_are_not_reported_when_detection_is_off() {
    let config = PartitionConfig { num_shards: 3, detect_conflicts: false, max_per_shard: 10 };
    let partitioner = ConflictFreePartitioner::with_config(config);
    let result = partitioner.partition(vec![tx_with(1, &[(9, 0)]), tx_with(2, &[(9, 0)])]).unwrap();
    assert_eq!(ConflictFreePartitioner::conflict_count(&result), 0);
}

#[test]
fn extracted_outpoints_follow_the_inputs() {
    let tx = tx_with(1, &[(9, 4), (8, 2)]);
    let ops = ConflictFreePartitioner::extract_outpoints_from_tx(&tx);
    assert_eq!(ops.len(), 2);
    assert_eq!(ops[0].tx_hash, vec![9; 32]);
    assert_eq!(ops[0].index, 4);
    assert_eq!(ops[1].index, 2);
    assert_eq!(ConflictFreePartitioner::hash_to_shard(&ops[0], 0), 0);
}

#[test]
fn any_shared_outpoint_joins_the_shards() {
    let partitioner = ConflictFreePartitioner::new();
    // 2 shares a later outpoint with 1; 3 links 1's group with 4's
    let txs = vec![
        tx_with(1, &[(9, 0), (7, 3)]),
        tx_with(4, &[(6, 0)]),
        tx_with(2, &[(5, 0), (7, 3)]),
        tx_with(3, &[(9, 0), (6, 0)]),
    ];
    let result = partitioner.partition(txs).unwrap();
    let s1 = *result.tx_to_shard.get(&vec![1; 32]).unwrap();
    let s2 = *result.tx_to_shard.get(&vec![2; 32]).unwrap();
    let s3 = *result.tx_to_shard.get(&vec![3; 32]).unwrap();
    let s4 = *result.tx_to_shard.get(&vec![4; 32]).unwrap();
    assert_eq!(s1, s2);
    assert_eq!(s1, s3);
    assert_eq!(s3, s4);
    let total: usize = result.shards.iter().map(|s| s.len()).sum();
    assert_eq!(total, 4);
}
