use klomang_mempool::advanced_conflicts::{ConflictMap, ConflictType, OutPoint, ResolutionReason, TxHash};
use klomang_mempool::transaction::{hash_key, Transaction, TxInput};

fn create_test_tx(id: u8, inputs: usize) -> Transaction {
    let mut tx_inputs = Vec::new();
    for i in 0..inputs {
        tx_inputs.push(TxInput {
            prev_tx: klomang_mempool::transaction::Hash::from_bytes([(id as u8).wrapping_add(i as u8); 32]),
            index: i as u32,
            pubkey: vec![],
        });
    }
    Transaction { id: klomang_mempool::transaction::Hash::from_bytes([id; 32]), inputs: tx_inputs, outputs: vec![], max_fee_per_gas: 0, encoded_size: 0 }
}

fn hash_of(tx: &Transaction) -> TxHash {
    TxHash::new(hash_key(&tx.id))
}

#[test]
fn test_conflict_map_creation() {
    let map = ConflictMap::new();
    assert!(map.is_empty());
}

#[test]
fn test_register_transaction_no_conflict() {
    let mut map = ConflictMap::new();
    let tx = create_test_tx(1, 1);
    let tx_hash = hash_of(&tx);
    let result = map.register_transaction(&tx, &tx_hash);
    assert!(result.is_ok());
    assert_eq!(result.unwrap(), ConflictType::NoConflict);
}

#[test]
fn test_deterministic_resolution_fee_rate() {
    let mut map = ConflictMap::new();

    let tx_a = create_test_tx(1, 1);
    let tx_b = create_test_tx(2, 1);

    let tx_a_hash = hash_of(&tx_a);
    let tx_b_hash = hash_of(&tx_b);

    map.register_transaction(&tx_a, &tx_a_hash).ok();
    map.register_transaction(&tx_b, &tx_b_hash).ok();

    let result = map.resolve_conflict(&tx_a, &tx_b, &tx_a_hash, &tx_b_hash, 100, 100, 2000, 1000);

    assert!(result.is_ok());
    let res = result.unwrap();
    assert_eq!(res.winner, tx_a_hash);
    assert_eq!(res.loser, tx_b_hash);
    assert_eq!(res.reason, ResolutionReason::HigherFeeRate);
}

#[test]
fn advanced_conflicts_test_remove_transaction() {
    let mut map = ConflictMap::new();

    let tx = create_test_tx(1, 2);
    let tx_hash = hash_of(&tx);

    map.register_transaction(&tx, &tx_hash).ok();
    assert!(!map.is_empty());

    let result = map.remove_transaction(&tx_hash);
    assert!(result.is_ok());
    assert_eq!(result.unwrap(), 2);
}

#[test]
fn equal_rates_fall_back_to_arrival_then_hash() {
    let mut map = ConflictMap::new();
    let tx_a = create_test_tx(1, 1);
    let tx_b = create_test_tx(2, 1);
    let (ha, hb) = (hash_of(&tx_a), hash_of(&tx_b));
    map.register_transaction(&tx_a, &ha).unwrap();
    map.register_transaction(&tx_b, &hb).unwrap();
    // Same fee rate: tx_a arrived first.
    let res = map.resolve_conflict(&tx_b, &tx_a, &hb, &ha, 100, 100, 1000, 1000).unwrap();
    assert_eq!(res.winner, ha);
    assert!(matches!(res.reason, ResolutionReason::EarlierArrival | ResolutionReason::LexicographicalHash));
    assert_eq!(map.get_stats().total_resolutions, 1);
}

fn spending(id: u8, prev: u8) -> Transaction {
    Transaction {
        id: klomang_mempool::transaction::Hash::from_bytes([id; 32]),
        inputs: vec![TxInput { prev_tx: klomang_mempool::transaction::Hash::from_bytes([prev; 32]), index: 0, pubkey: vec![] }],
        outputs: vec![],
        max_fee_per_gas: 0,
        encoded_size: 0,
    }
}

#[test]
fn shared_input_gives_direct_conflict() {
    let mut map = ConflictMap::new();
    let tx1 = spending(1, 50);
    let tx2 = spending(2, 50);
    assert_eq!(map.register_transaction(&tx1, &hash_of(&tx1)).unwrap(), ConflictType::NoConflict);
    match map.register_transaction(&tx2, &hash_of(&tx2)) {
        Ok(ConflictType::DirectConflict { tx_a, tx_b, outpoint }) => {
            assert_eq!(tx_a, hash_of(&tx1));
            assert_eq!(tx_b, hash_of(&tx2));
            assert_eq!(outpoint, OutPoint::new(hash_key(&klomang_mempool::transaction::Hash::from_bytes([50; 32])), 0));
        }
        _ => panic!("Expected direct conflict"),
    }
}

#[test]
fn shared_input_is_claimed_by_both_spenders() {
    let mut map = ConflictMap::new();
    let tx1 = spending(1, 50);
    let tx2 = spending(2, 50);
    map.register_transaction(&tx1, &hash_of(&tx1)).unwrap();
    let second = map.register_transaction(&tx2, &hash_of(&tx2)).unwrap();
    assert!(matches!(second, ConflictType::DirectConflict { .. }));
    let op = OutPoint::new(hash_key(&klomang_mempool::transaction::Hash::from_bytes([50; 32])), 0);
    assert!(map.has_conflicts(&op));
    assert_eq!(map.get_claiming_transactions(&op).len(), 2);
}

#[test]
fn test_conflicted_outpoints() {
    let mut map = ConflictMap::new();
    let tx1 = spending(1, 50);
    let tx2 = spending(2, 50);
    map.register_transaction(&tx1, &hash_of(&tx1)).ok();
    map.register_transaction(&tx2, &hash_of(&tx2)).ok();
    let conflicted = map.get_conflicted_outpoints();
    assert_eq!(conflicted.len(), 1);
}

#[test]
fn test_direct_conflict_detection() {
    let mut map = ConflictMap::new();

    let tx1 = create_test_tx(1, 1);
    let mut tx2 = create_test_tx(2, 1);
    // tx2 spends the same output as tx1
    tx2.inputs[0].prev_tx = tx1.inputs[0].prev_tx;

    let tx1_hash = hash_of(&tx1);
    let tx2_hash = hash_of(&tx2);

    let result1 = map.register_transaction(&tx1, &tx1_hash);
    assert_eq!(result1.unwrap(), ConflictType::NoConflict);

    let result2 = map.register_transaction(&tx2, &tx2_hash);
    match result2 {
        Ok(ConflictType::DirectConflict { tx_a, tx_b, .. }) => {
            assert_eq!(tx_a, tx1_hash);
            assert_eq!(tx_b, tx2_hash);
        }
        _ => panic!("Expected direct conflict"),
    }
}
