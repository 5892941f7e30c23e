use klomang_mempool::conflict_graph::{ConflictGraph, OutPoint, TxHash};
use klomang_mempool::transaction::{hash_key, Transaction, TxInput};

fn create_test_tx(id: u8, prev_tx_ids: Vec<u8>) -> Transaction {
    let mut inputs = Vec::new();
    for (idx, prev_id) in prev_tx_ids.iter().enumerate() {
        inputs.push(TxInput { prev_tx: klomang_mempool::transaction::Hash::from_bytes([*prev_id; 32]), index: idx as u32, pubkey: vec![] });
    }
    Transaction { id: klomang_mempool::transaction::Hash::from_bytes([id; 32]), inputs, outputs: vec![], max_fee_per_gas: 0, encoded_size: 0 }
}

fn tx_hash(id: u8) -> TxHash {
    TxHash::new(vec![id; 32])
}

#[test]
fn test_conflict_graph_creation() {
    let graph = ConflictGraph::new();
    assert!(graph.is_empty());
}

#[test]
fn test_conflict_detection_basic() {
    let mut graph = ConflictGraph::new();

    let tx1 = create_test_tx(1, vec![100]);
    let tx2 = create_test_tx(2, vec![100]);

    let hash1 = tx_hash(1);
    let hash2 = tx_hash(2);

    let conflicts1 = graph.register_transaction(&tx1, &hash1, 1000, 100).unwrap();
    assert!(conflicts1.is_empty());

    let conflicts2 = graph.register_transaction(&tx2, &hash2, 500, 100).unwrap();
    assert_eq!(conflicts2.len(), 1);
    assert_eq!(conflicts2[0], hash1);
}

#[test]
fn test_cascade_removal() {
    let mut graph = ConflictGraph::new();

    let parent_hash = tx_hash(1);
    let child_hash = tx_hash(2);

    let parent_tx = create_test_tx(1, vec![100]);
    let child_tx = create_test_tx(2, vec![101]);

    graph.register_transaction(&parent_tx, &parent_hash, 1000, 100).ok();
    graph.register_transaction(&child_tx, &child_hash, 500, 100).ok();

    graph.add_dependency(&child_hash, &parent_hash).ok();

    let removed = graph.remove_and_cascade(&parent_hash).unwrap();
    assert_eq!(removed.len(), 2);
    assert!(graph.is_empty());
}

#[test]
fn test_conflict_set_computation() {
    let mut graph = ConflictGraph::new();

    let hash1 = tx_hash(1);
    let hash2 = tx_hash(2);
    let hash3 = tx_hash(3);

    let tx1 = create_test_tx(1, vec![100]);
    let tx2 = create_test_tx(2, vec![100]);
    let tx3 = create_test_tx(3, vec![101]);

    graph.register_transaction(&tx1, &hash1, 1000, 100).ok();
    graph.register_transaction(&tx2, &hash2, 800, 100).ok();
    graph.register_transaction(&tx3, &hash3, 500, 100).ok();

    let conflict_set = graph.get_conflict_set(&hash1).unwrap();
    assert!(conflict_set.contains(&hash1));
    assert!(conflict_set.contains(&hash2));
    assert!(!conflict_set.contains(&hash3));
}

#[test]
fn conflicts_are_recorded_both_ways() {
    let mut graph = ConflictGraph::new();
    let tx1 = create_test_tx(1, vec![7]);
    let tx2 = create_test_tx(2, vec![7]);
    graph.register_transaction(&tx1, &tx_hash(1), 10, 10).unwrap();
    graph.register_transaction(&tx2, &tx_hash(2), 10, 10).unwrap();
    assert!(graph.has_conflicts(&tx_hash(1)));
    assert!(graph.has_conflicts(&tx_hash(2)));
    assert_eq!(graph.get_conflicting_transactions(&tx_hash(1)), vec![tx_hash(2)]);
    assert_eq!(graph.get_conflicting_transactions(&tx_hash(2)), vec![tx_hash(1)]);
    assert_eq!(graph.get_stats().total_conflicts, 1);
    assert_eq!(graph.get_stats().total_nodes, 2);
}

#[test]
fn outpoints_follow_input_positions() {
    // Inputs spending the same transaction at different positions claim
    // different outpoints, so two such transactions do not conflict.
    let mut graph = ConflictGraph::new();
    let tx1 = create_test_tx(1, vec![5, 6]);
    let tx2 = create_test_tx(2, vec![6]);
    graph.register_transaction(&tx1, &tx_hash(1), 10, 10).unwrap();
    let c = graph.register_transaction(&tx2, &tx_hash(2), 10, 10).unwrap();
    assert!(c.is_empty());
}

#[test]
fn cascade_removes_grandchildren_and_unlinks_parents() {
    let mut graph = ConflictGraph::new();
    for id in 1..=4u8 {
        graph.register_transaction(&create_test_tx(id, vec![100 + id]), &tx_hash(id), 10, 10).unwrap();
    }
    graph.add_dependency(&tx_hash(2), &tx_hash(1)).unwrap();
    graph.add_dependency(&tx_hash(3), &tx_hash(2)).unwrap();
    graph.add_dependency(&tx_hash(2), &tx_hash(4)).unwrap();
    let removed = graph.remove_and_cascade(&tx_hash(2)).unwrap();
    assert_eq!(removed[0], tx_hash(2));
    assert_eq!(removed.len(), 2);
    assert!(removed.contains(&tx_hash(3)));
    assert_eq!(graph.node_count(), 2);
    let n1 = graph.get_node(&tx_hash(1)).unwrap();
    assert!(!n1.children.contains(&tx_hash(2)));
    let n4 = graph.get_node(&tx_hash(4)).unwrap();
    assert!(!n4.children.contains(&tx_hash(2)));
}

#[test]
fn add_dependency_needs_the_child() {
    let mut graph = ConflictGraph::new();
    let r = graph.add_dependency(&tx_hash(9), &tx_hash(1));
    assert_eq!(r, Err("Child transaction not found".to_string()));
}

#[test]
fn mark_high_risk_reports_each_once() {
    let mut graph = ConflictGraph::new();
    for id in 1..=3u8 {
        graph.register_transaction(&create_test_tx(id, vec![100 + id]), &tx_hash(id), 10, 10).unwrap();
    }
    graph.add_dependency(&tx_hash(2), &tx_hash(1)).unwrap();
    graph.add_dependency(&tx_hash(3), &tx_hash(2)).unwrap();
    let first = graph.mark_high_risk(&tx_hash(2)).unwrap();
    assert_eq!(first.len(), 2);
    assert_eq!(first[0], tx_hash(2));
    let second = graph.mark_high_risk(&tx_hash(1)).unwrap();
    assert_eq!(second, vec![tx_hash(1)]);
    assert_eq!(graph.get_stats().high_risk_transactions, 3);
}

#[test]
fn outpoint_key_is_hex_and_decimal() {
    let op = OutPoint::new(vec![0x0a, 0xff, 0x00], 42);
    assert_eq!(op.to_key(), "0aff00:42");
    let op2 = OutPoint::from_hash(&klomang_mempool::transaction::Hash::from_bytes([1; 32]), 7);
    assert_eq!(op2.tx_hash, hash_key(&klomang_mempool::transaction::Hash::from_bytes([1; 32])));
    assert_eq!(op2.to_key(), format!("{}:7", "01".repeat(32)));
}

#[test]
fn conflict_set_follows_the_graph() {
    let mut graph = ConflictGraph::new();
    graph.register_transaction(&create_test_tx(1, vec![100]), &tx_hash(1), 1000, 100).unwrap();
    let first = graph.get_conflict_set(&tx_hash(1)).unwrap();
    assert_eq!(first.len(), 1);
    graph.register_transaction(&create_test_tx(2, vec![100]), &tx_hash(2), 800, 100).unwrap();
    let second = graph.get_conflict_set(&tx_hash(1)).unwrap();
    assert_eq!(second.len(), 2);
    assert!(second.contains(&tx_hash(1)));
    assert!(second.contains(&tx_hash(2)));
}

#[test]
fn test_conflict_detection_multiple_inputs() {
    let mut graph = ConflictGraph::new();
    let tx1 = create_test_tx(1, vec![100]);
    let tx1_hash = TxHash::new(hash_key(&tx1.id));
    let tx2 = create_test_tx(2, vec![100]);
    let tx2_hash = TxHash::new(hash_key(&tx2.id));

    let conflicts1 = graph.register_transaction(&tx1, &tx1_hash, 1000, 100).unwrap();
    assert_eq!(conflicts1.len(), 0, "First transaction should have no conflicts");
    let conflicts2 = graph.register_transaction(&tx2, &tx2_hash, 1000, 100).unwrap();
    assert_eq!(conflicts2.len(), 1, "Second transaction should detect first as conflict");
}

#[test]
fn test_cascade_removal_with_descendants() {
    let mut graph = ConflictGraph::new();
    let tx1 = create_test_tx(1, vec![100]);
    let tx1_hash = TxHash::new(hash_key(&tx1.id));
    let tx2 = create_test_tx(2, vec![100]);
    let tx2_hash = TxHash::new(hash_key(&tx2.id));
    let tx3 = create_test_tx(3, vec![100]);
    let tx3_hash = TxHash::new(hash_key(&tx3.id));

    graph.register_transaction(&tx1, &tx1_hash, 1000, 100).unwrap();
    graph.register_transaction(&tx2, &tx2_hash, 1000, 100).unwrap();
    graph.add_dependency(&tx2_hash, &tx1_hash).unwrap();
    graph.register_transaction(&tx3, &tx3_hash, 1000, 100).unwrap();
    graph.add_dependency(&tx3_hash, &tx2_hash).unwrap();

    let evicted = graph.remove_and_cascade(&tx1_hash).unwrap();
    assert!(evicted.len() >= 2, "Expected at least 2 evicted transactions, got {}", evicted.len());
}

#[test]
fn test_transitive_conflict_detection() {
    let mut graph = ConflictGraph::new();
    let tx1 = create_test_tx(1, vec![100]);
    let tx1_hash = TxHash::new(hash_key(&tx1.id));
    let tx2 = create_test_tx(2, vec![100, 200]);
    let tx2_hash = TxHash::new(hash_key(&tx2.id));

    graph.register_transaction(&tx1, &tx1_hash, 1000, 100).unwrap();
    graph.register_transaction(&tx2, &tx2_hash, 1000, 100).unwrap();

    let conflict_set = graph.get_conflict_set(&tx1_hash).unwrap();
    assert!(conflict_set.contains(&tx1_hash), "Conflict set should include TX1");
    assert!(conflict_set.contains(&tx2_hash), "Conflict set should include TX2");
}

#[test]
fn test_conflict_graph_stats_accumulation() {
    let mut graph = ConflictGraph::new();
    let tx1 = create_test_tx(1, vec![100]);
    let tx1_hash = TxHash::new(hash_key(&tx1.id));
    let tx2 = create_test_tx(2, vec![100]);
    let tx2_hash = TxHash::new(hash_key(&tx2.id));

    graph.register_transaction(&tx1, &tx1_hash, 1000, 100).unwrap();
    graph.register_transaction(&tx2, &tx2_hash, 1000, 100).unwrap();

    let stats = graph.get_stats();
    assert_eq!(stats.total_nodes, 2, "Should have 2 nodes");
    assert_eq!(stats.total_conflicts, 1, "Should have detected 1 conflict pair");
}

#[test]
fn test_multiple_concurrent_conflicts() {
    let mut graph = ConflictGraph::new();
    let mut txes = Vec::new();
    let mut hashes = Vec::new();
    for i in 1..=5u8 {
        let tx = create_test_tx(i, vec![100]);
        let hash = TxHash::new(hash_key(&tx.id));
        txes.push(tx);
        hashes.push(hash);
    }
    for (tx, hash) in txes.iter().zip(hashes.iter()) {
        graph.register_transaction(tx, hash, 1000, 100).unwrap();
    }
    let stats = graph.get_stats();
    assert_eq!(stats.total_nodes, 5, "Should have 5 nodes");
    assert!(stats.total_conflicts > 0, "Should detect conflicts");
}
