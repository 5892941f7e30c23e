use klomang_mempool::conflict::{OutPoint, UtxoConflictError, UtxoTracker};
use klomang_mempool::transaction::{Transaction, TxInput};

fn create_test_input(tx_hash: u8, index: u32) -> TxInput {
    TxInput { prev_tx: klomang_mempool::transaction::Hash::from_bytes([tx_hash; 32]), index, pubkey: vec![] }
}

fn create_test_transaction(id: u8, inputs_count: usize) -> Transaction {
    let mut inputs = Vec::new();
    for i in 0..inputs_count {
        inputs.push(create_test_input(id.wrapping_add(i as u8), i as u32));
    }
    Transaction { id: klomang_mempool::transaction::Hash::from_bytes([id; 32]), inputs, outputs: vec![], max_fee_per_gas: 0, encoded_size: 0 }
}

#[test]
fn test_outpoint_creation() {
    let outpoint = OutPoint::new(vec![1, 2, 3], 42);
    assert_eq!(outpoint.index, 42);
    assert_eq!(outpoint.tx_hash, vec![1, 2, 3]);
}

#[test]
fn test_register_single_claim() {
    let mut tracker = UtxoTracker::new();
    let tx = create_test_transaction(1, 1);
    let result = tracker.register_claims(&tx, 1000);
    assert!(result.is_ok());
    assert_eq!(tracker.tracked_transactions_count(), 1);
    assert!(tracker.active_claims_count() > 0);
}

#[test]
fn test_conflict_detection() {
    let mut tracker = UtxoTracker::new();
    let tx1 = create_test_transaction(1, 1);
    let _tx2 = create_test_transaction(2, 1);
    assert!(tracker.register_claims(&tx1, 1000).is_ok());
    let claims = tracker.get_transaction_claims(&tx1.id.bytes);
    assert!(claims.is_some());
}

#[test]
fn test_release_claims() {
    let mut tracker = UtxoTracker::new();
    let tx = create_test_transaction(1, 2);
    let tx_hash = tx.id.bytes.to_vec();
    tracker.register_claims(&tx, 1000).ok();
    assert_eq!(tracker.tracked_transactions_count(), 1);
    tracker.release_claims(&tx_hash).ok();
    assert_eq!(tracker.tracked_transactions_count(), 0);
}

#[test]
fn test_statistics_tracking() {
    let mut tracker = UtxoTracker::new();
    let tx1 = create_test_transaction(1, 2);
    let tx2 = create_test_transaction(2, 3);
    tracker.register_claims(&tx1, 1000).ok();
    tracker.register_claims(&tx2, 2000).ok();
    let stats = tracker.get_stats();
    assert_eq!(stats.total_tracked, 2);
    assert!(stats.total_claims >= 5);
}

#[test]
fn test_is_claimed_check() {
    let mut tracker = UtxoTracker::new();
    let tx = create_test_transaction(1, 1);
    tracker.register_claims(&tx, 1000).ok();
    if let Some(input) = tx.inputs.first() {
        let outpoint = OutPoint::new(input.prev_tx.bytes.to_vec(), input.index);
        assert!(tracker.is_claimed(&outpoint));
    }
}

#[test]
fn outpoint_text_shows_the_whole_hash_and_index() {
    let outpoint = OutPoint::new(vec![1, 2, 0xab], 42);
    assert_eq!(outpoint.to_string(), "0102ab:42");
    let hash_outpoint = OutPoint::new(vec![7; 32], 0);
    assert_eq!(hash_outpoint.to_string(), format!("{}:0", "07".repeat(32)));
}

#[test]
fn only_spent_outputs_are_claimed() {
    let mut tracker = UtxoTracker::new();
    let tx = create_test_transaction(1, 1);
    tracker.register_claims(&tx, 1000).unwrap();
    let spent = OutPoint::new(vec![1; 32], 0);
    let other = OutPoint::new(vec![9; 32], 0);
    assert!(tracker.is_claimed(&spent));
    assert!(!tracker.is_claimed(&other));
}

#[test]
fn from_input_takes_the_spent_hash_and_index() {
    let input = create_test_input(5, 3);
    let o = OutPoint::from_input(&input);
    assert_eq!(o.tx_hash, vec![5; 32]);
    assert_eq!(o.index, 3);
}

#[test]
fn lower_fee_cannot_take_a_claimed_output() {
    let mut tracker = UtxoTracker::new();
    let first = create_test_transaction(1, 1);
    let second = Transaction {
        id: klomang_mempool::transaction::Hash::from_bytes([9; 32]),
        inputs: vec![create_test_input(1, 0)],
        outputs: vec![],
        max_fee_per_gas: 0,
        encoded_size: 0,
    };
    tracker.register_claims(&first, 1000).unwrap();
    match tracker.register_claims(&second, 500) {
        Err(UtxoConflictError::UtxoAlreadyClaimed { outpoint, claimed_by, current_fee, new_fee }) => {
            assert_eq!(outpoint, format!("{}:0", "01".repeat(32)));
            assert_eq!(claimed_by, vec![1; 32]);
            assert_eq!(current_fee, 1000);
            assert_eq!(new_fee, 500);
        }
        other => panic!("unexpected {:?}", other),
    }
    assert_eq!(tracker.tracked_transactions_count(), 1);
}

#[test]
fn higher_fee_replaces_the_claim() {
    let mut tracker = UtxoTracker::new();
    let first = create_test_transaction(1, 1);
    let second = Transaction {
        id: klomang_mempool::transaction::Hash::from_bytes([9; 32]),
        inputs: vec![create_test_input(1, 0)],
        outputs: vec![],
        max_fee_per_gas: 0,
        encoded_size: 0,
    };
    tracker.register_claims(&first, 1000).unwrap();
    tracker.register_claims(&second, 2000).unwrap();
    let lock = tracker.get_claiming_transaction(&OutPoint::new(vec![1; 32], 0)).unwrap();
    assert_eq!(lock.claimed_by, vec![9; 32]);
    assert_eq!(lock.claiming_fee, 2000);
    assert_eq!(tracker.get_stats().rbf_replacements, 1);
}

#[test]
fn releasing_an_untracked_transaction_is_an_error() {
    let mut tracker = UtxoTracker::new();
    assert_eq!(tracker.release_claims(&[4, 4]), Err(UtxoConflictError::TransactionNotTracked(vec![4, 4])));
}

#[test]
fn register_then_release_leaves_the_tracker_as_it_was() {
    let mut tracker = UtxoTracker::new();
    let tx = create_test_transaction(3, 2);
    tracker.register_claims(&tx, 10).unwrap();
    assert_eq!(tracker.active_claims_count(), 2);
    tracker.release_claims(&tx.id.bytes).unwrap();
    assert_eq!(tracker.active_claims_count(), 0);
    assert_eq!(tracker.tracked_transactions_count(), 0);
    assert_eq!(tracker.get_stats().claims_released, 1);
}

#[test]
fn check_conflicts_lists_claimed_inputs_in_order() {
    let mut tracker = UtxoTracker::new();
    let tx = create_test_transaction(1, 2);
    tracker.register_claims(&tx, 10).unwrap();
    let other = Transaction {
        id: klomang_mempool::transaction::Hash::from_bytes([40; 32]),
        inputs: vec![create_test_input(1, 0), create_test_input(2, 1), create_test_input(50, 2)],
        outputs: vec![],
        max_fee_per_gas: 0,
        encoded_size: 0,
    };
    let conflicts = tracker.check_conflicts(&other).unwrap();
    assert_eq!(conflicts.len(), 2);
    assert_eq!(conflicts[0].index, 0);
    assert_eq!(conflicts[1].index, 1);
}

#[test]
fn rbf_needs_a_higher_fee() {
    let mut tracker = UtxoTracker::new();
    let old = create_test_transaction(1, 1);
    let new = create_test_transaction(2, 1);
    tracker.register_claims(&old, 100).unwrap();
    assert_eq!(tracker.attempt_rbf_replacement(&old.id.bytes, &new, 100, 50), Ok(false));
    assert_eq!(tracker.attempt_rbf_replacement(&old.id.bytes, &new, 100, 150), Ok(true));
    assert!(tracker.get_transaction_claims(&new.id.bytes).is_some());
    assert!(tracker.get_transaction_claims(&old.id.bytes).is_none());
}

#[test]
fn clear_all_forgets_claims() {
    let mut tracker = UtxoTracker::new();
    tracker.register_claims(&create_test_transaction(1, 2), 5).unwrap();
    tracker.clear_all();
    assert_eq!(tracker.active_claims_count(), 0);
    assert_eq!(tracker.tracked_transactions_count(), 0);
}
