use klomang_mempool::advanced_conflicts::{ConflictMap, OutPoint, TxHash};
use klomang_mempool::advanced_transaction_manager::{resolve_direct_conflict, ManagerError};
use klomang_mempool::dependency_graph::DependencyGraph;
use klomang_mempool::transaction::{hash_key, Transaction, TxInput};

fn spending(id: u8, prev: u8) -> Transaction {
    Transaction {
        id: klomang_mempool::transaction::Hash::from_bytes([id; 32]),
        inputs: vec![TxInput { prev_tx: klomang_mempool::transaction::Hash::from_bytes([prev; 32]), index: 0, pubkey: vec![] }],
        outputs: vec![],
        max_fee_per_gas: 0,
        encoded_size: 0,
    }
}

fn hash_of(tx: &Transaction) -> TxHash {
    TxHash::new(hash_key(&tx.id))
}

#[test]
fn higher_fee_rate_evicts_the_claimant() {
    let mut conflicts = ConflictMap::new();
    let mut graph = DependencyGraph::new();
    let old = spending(1, 50);
    let new = spending(2, 50);
    conflicts.register_transaction(&old, &hash_of(&old)).unwrap();
    graph.register_transaction(&hash_of(&old));
    let r = resolve_direct_conflict(
        &mut conflicts, &mut graph,
        &new, &hash_of(&new), 5000, 100,
        &old, &hash_of(&old), 1000, 100,
        &old, &hash_of(&old), 1000, 100,
    );
    assert_eq!(r, Ok(vec![hash_of(&old)]));
    let op = OutPoint::new(hash_key(&klomang_mempool::transaction::Hash::from_bytes([50; 32])), 0);
    assert!(conflicts.get_claiming_transactions(&op).is_empty());
    assert!(graph.is_empty());
}

#[test]
fn lower_fee_rate_is_refused() {
    let mut conflicts = ConflictMap::new();
    let mut graph = DependencyGraph::new();
    let old = spending(1, 50);
    let new = spending(2, 50);
    conflicts.register_transaction(&old, &hash_of(&old)).unwrap();
    graph.register_transaction(&hash_of(&old));
    let r = resolve_direct_conflict(
        &mut conflicts, &mut graph,
        &new, &hash_of(&new), 100, 100,
        &old, &hash_of(&old), 5000, 100,
        &old, &hash_of(&old), 5000, 100,
    );
    assert_eq!(r, Err(ManagerError::ConflictDetected { msg: "New transaction has lower fee rate than existing".to_string() }));
    assert_eq!(graph.len(), 1);
}

#[test]
fn both_claimants_can_be_evicted() {
    let mut conflicts = ConflictMap::new();
    let mut graph = DependencyGraph::new();
    let a = spending(1, 50);
    let b = spending(3, 60);
    let new = spending(2, 50);
    conflicts.register_transaction(&a, &hash_of(&a)).unwrap();
    conflicts.register_transaction(&b, &hash_of(&b)).unwrap();
    graph.register_transaction(&hash_of(&a));
    graph.register_transaction(&hash_of(&b));
    let r = resolve_direct_conflict(
        &mut conflicts, &mut graph,
        &new, &hash_of(&new), 9000, 100,
        &a, &hash_of(&a), 1000, 100,
        &b, &hash_of(&b), 1000, 100,
    )
    .unwrap();
    assert_eq!(r, vec![hash_of(&a), hash_of(&b)]);
    assert!(graph.is_empty());
}

fn admission() -> klomang_mempool::advanced_transaction_manager::PoolAdmission {
    klomang_mempool::advanced_transaction_manager::PoolAdmission {
        resources_admit: true,
        multiplier: 1,
        within_rate_limit: true,
        weight: klomang_mempool::memory_limiter::TransactionWeight { vsize: 100, overhead: 50, total_weight: 150 },
        eviction_order: Vec::new(),
        verdict: None,
        now: 1000,
        now_ms: 1_000_000,
        now_ns: 1_000_000_000,
    }
}

fn manager() -> klomang_mempool::advanced_transaction_manager::AdvancedTransactionManager {
    klomang_mempool::advanced_transaction_manager::AdvancedTransactionManager::new(klomang_mempool::pool::PoolConfig::default())
}

#[test]
fn test_manager_creation() {
    let manager = manager();
    let analysis = manager.analyze_conflicts();
    assert!(analysis.is_ok());
}

#[test]
fn test_conflict_status() {
    let manager = manager();
    let tx = TxHash::new(vec![1; 32]);
    let status = manager.get_conflict_status(&tx);
    assert!(!status.in_conflict);
    assert_eq!(status.reason, None);
}

#[test]
fn manager_adds_and_settles_a_double_spend() {
    let mut m = manager();
    let first = spending(1, 50);
    let r = m.add_transaction(first.clone(), 1000, 100, admission()).unwrap();
    assert!(r.added);
    assert_eq!(r.tx_hash, hash_of(&first));
    assert!(r.evicted.is_empty());

    let second = spending(2, 50);
    let r = m.add_transaction(second.clone(), 5000, 100, admission()).unwrap();
    assert_eq!(r.evicted, vec![hash_of(&first)]);
    assert_eq!(r.conflicts_resolved, 1);

    let analysis = m.analyze_conflicts().unwrap();
    assert_eq!(analysis.conflicted_outpoints, 0);

    m.remove_transaction(&hash_of(&second)).unwrap();
    let analysis = m.analyze_conflicts().unwrap();
    assert_eq!(analysis.affected_transactions, 0);
}

#[test]
fn manager_refuses_a_lower_fee_double_spend() {
    let mut m = manager();
    m.add_transaction(spending(1, 50), 5000, 100, admission()).unwrap();
    let r = m.add_transaction(spending(2, 50), 1000, 100, admission());
    assert!(matches!(r, Err(ManagerError::ConflictDetected { .. })));
}

#[test]
fn on_equal_fee_rates_the_earlier_arrival_wins() {
    let mut m = manager();
    let first = spending(1, 50);
    m.add_transaction(first.clone(), 1000, 100, admission()).unwrap();
    let mut earlier = admission();
    earlier.now = 500;
    let second = spending(2, 50);
    let r = m.add_transaction(second.clone(), 1000, 100, earlier).unwrap();
    assert_eq!(r.evicted, vec![hash_of(&first)]);

    let mut later = admission();
    later.now = 2000;
    let r = m.add_transaction(spending(3, 50), 1000, 100, later);
    assert_eq!(r.err(), Some(ManagerError::ConflictDetected { msg: "New transaction has lower fee rate than existing".to_string() }));
}

#[test]
fn a_pool_refusal_is_reported_with_its_message() {
    let mut m = manager();
    let mut limited = admission();
    limited.within_rate_limit = false;
    let r = m.add_transaction(spending(1, 50), 1000, 100, limited);
    let text = klomang_mempool::admission::AdmissionError::RateLimited.message();
    assert_eq!(r.err(), Some(ManagerError::InvalidTransaction { msg: text }));
}
