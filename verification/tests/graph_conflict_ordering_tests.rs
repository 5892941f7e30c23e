use klomang_mempool::graph_conflict_ordering::{DisjointSetUnion, GraphConflictOrderingEngine};
use klomang_mempool::transaction::{Transaction, TxInput};

fn tx(id: u8, prevs: &[u8]) -> Transaction {
    let inputs = prevs
        .iter()
        .enumerate()
        .map(|(i, p)| TxInput { prev_tx: klomang_mempool::transaction::Hash::from_bytes([*p; 32]), index: i as u32, pubkey: vec![] })
        .collect();
    Transaction { id: klomang_mempool::transaction::Hash::from_bytes([id; 32]), inputs, outputs: vec![], max_fee_per_gas: 0, encoded_size: 0 }
}

#[test]
fn test_dsu_basic() {
    let mut dsu = DisjointSetUnion::new();
    let h1 = vec![1];
    let h2 = vec![2];
    let h3 = vec![3];

    dsu.make_set(h1.clone());
    dsu.make_set(h2.clone());
    dsu.make_set(h3.clone());

    dsu.union(&h1, &h2);

    assert_eq!(dsu.find(&h1), dsu.find(&h2));
    assert_ne!(dsu.find(&h1), dsu.find(&h3));
}

#[test]
fn test_canonical_ordering_empty() {
    let engine = GraphConflictOrderingEngine::new();
    let result = engine.compute_canonical_order(&vec![]).unwrap();

    assert_eq!(result.ordered_hashes.len(), 0);
    assert_eq!(result.layer_count, 0);
}

#[test]
fn test_parallel_execution_groups() {
    let engine = GraphConflictOrderingEngine::new();

    let groups = engine.get_parallel_execution_groups().unwrap();
    assert_eq!(groups.len(), 0);
}

#[test]
fn layers_follow_dependencies_and_ranking() {
    let mut engine = GraphConflictOrderingEngine::new();
    engine.register_transaction(&tx(1, &[10]), vec![1], 100, 0);
    engine.register_transaction(&tx(2, &[11]), vec![2], 100, 0);
    engine.register_transaction(&tx(3, &[12]), vec![3], 100, 0);
    engine.add_dependency(vec![1], vec![3]).unwrap();
    let ranking = vec![vec![3], vec![2], vec![1]];
    let result = engine.compute_canonical_order(&ranking).unwrap();
    assert_eq!(result.layer_count, 2);
    assert_eq!(result.parallel_groups[0], vec![vec![2], vec![1]]);
    assert_eq!(result.parallel_groups[1], vec![vec![3]]);
    assert_eq!(result.ordered_hashes, vec![vec![2], vec![1], vec![3]]);
}

#[test]
fn double_spends_are_detected_and_grouped() {
    let mut engine = GraphConflictOrderingEngine::new();
    engine.register_transaction(&tx(1, &[10]), vec![1], 100, 0);
    engine.register_transaction(&tx(2, &[10]), vec![2], 100, 0);
    engine.register_transaction(&tx(3, &[12]), vec![3], 100, 0);
    assert_eq!(engine.detect_double_spend(&[1]), Ok(true));
    assert_eq!(engine.detect_double_spend(&[3]), Ok(false));
    let groups = engine.get_parallel_execution_groups().unwrap();
    assert_eq!(groups.len(), 2);
    assert!(groups.iter().any(|g| g.len() == 2));
}

#[test]
fn cascade_takes_dependents() {
    let mut engine = GraphConflictOrderingEngine::new();
    engine.register_transaction(&tx(1, &[10]), vec![1], 100, 0);
    engine.register_transaction(&tx(2, &[11]), vec![2], 100, 0);
    engine.add_dependency(vec![1], vec![2]).unwrap();
    let removed = engine.remove_transaction_cascade(&[1]).unwrap();
    assert_eq!(removed, vec![vec![1], vec![2]]);
    assert_eq!(engine.transaction_count(), 0);
}

#[test]
fn a_ranked_acyclic_graph_is_placed_whole() {
    let mut engine = GraphConflictOrderingEngine::new();
    engine.register_transaction(&tx(1, &[20]), vec![1], 100, 0);
    engine.register_transaction(&tx(2, &[21]), vec![2], 100, 0);
    engine.register_transaction(&tx(3, &[22]), vec![3], 100, 0);
    engine.register_transaction(&tx(4, &[23]), vec![4], 100, 0);
    engine.add_dependency(vec![1], vec![2]).unwrap();
    engine.add_dependency(vec![2], vec![3]).unwrap();
    engine.add_dependency(vec![1], vec![4]).unwrap();
    let ranking = vec![vec![4], vec![3], vec![2], vec![1]];
    let result = engine.compute_canonical_order(&ranking).unwrap();
    let mut placed = result.ordered_hashes.clone();
    placed.sort();
    assert_eq!(placed, vec![vec![1], vec![2], vec![3], vec![4]]);
    assert_eq!(result.layer_count, 3);
    assert_eq!(result.ordered_hashes, vec![vec![1], vec![4], vec![2], vec![3]]);
}

#[test]
fn groups_hold_only_registered_transactions_after_a_cascade() {
    let mut engine = GraphConflictOrderingEngine::new();
    engine.register_transaction(&tx(1, &[30]), vec![1], 100, 0);
    engine.register_transaction(&tx(2, &[30]), vec![2], 100, 0);
    engine.register_transaction(&tx(3, &[31]), vec![3], 100, 0);
    let removed = engine.remove_transaction_cascade(&[1]).unwrap();
    assert_eq!(removed, vec![vec![1]]);
    assert!(engine.get_conflicts(&[2]).is_empty());
    let groups = engine.get_parallel_execution_groups().unwrap();
    let mut all: Vec<Vec<u8>> = groups.iter().flatten().cloned().collect();
    all.sort();
    assert_eq!(all, vec![vec![2], vec![3]]);
    assert_eq!(groups.len(), 2);
}

#[test]
fn empty_engine_orders_nothing_with_no_conflicts() {
    let engine = GraphConflictOrderingEngine::new();
    let result = engine.compute_canonical_order(&vec![]).unwrap();
    assert_eq!(result.conflict_count, 0);
    assert!(result.parallel_groups.is_empty());
}
