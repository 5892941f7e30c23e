use klomang_mempool::conflict::OutPoint;
use klomang_mempool::keyed::KeySet;
use klomang_mempool::ordering_selection::{select_ordered, OrderingCandidate};

fn cand(id: u8, fee_rate: u64, ancestors: Option<Vec<Vec<u8>>>, inputs: Vec<(u8, u32)>) -> Option<OrderingCandidate> {
    Some(OrderingCandidate {
        tx_hash: vec![id; 32],
        fee_rate,
        ancestors,
        inputs: inputs.into_iter().map(|(p, i)| OutPoint::new(vec![p; 32], i)).collect(),
    })
}

fn candidates() -> Vec<Option<OrderingCandidate>> {
    vec![
        cand(1, 10, None, vec![(100, 0)]),
        cand(2, 1, None, vec![(100, 1)]),
        cand(3, 10, Some(vec![vec![9; 32]]), vec![(100, 2)]),
        cand(4, 10, Some(vec![vec![1; 32]]), vec![(1, 0)]),
        None,
        cand(5, 10, None, vec![(77, 0)]),
    ]
}

fn chain_and_pool() -> (KeySet<OutPoint>, KeySet<Vec<u8>>) {
    let mut on_chain = KeySet::new();
    on_chain.insert(OutPoint::new(vec![100; 32], 0));
    on_chain.insert(OutPoint::new(vec![100; 32], 2));
    let mut in_pool = KeySet::new();
    in_pool.insert(vec![1; 32]);
    (on_chain, in_pool)
}

#[test]
fn picks_in_order_and_counts_each_refusal() {
    let (on_chain, in_pool) = chain_and_pool();
    let r = select_ordered(&candidates(), 10, 5, true, &on_chain, &in_pool);
    assert_eq!(r.selected, vec![vec![1; 32], vec![4; 32]]);
    assert_eq!(r.rejected_low_fee, 1);
    assert_eq!(r.rejected_missing_parents, 1);
    assert_eq!(r.rejected_validation, 1);
}

#[test]
fn the_limit_stops_the_pick() {
    let (on_chain, in_pool) = chain_and_pool();
    let r = select_ordered(&candidates(), 1, 5, true, &on_chain, &in_pool);
    assert_eq!(r.selected, vec![vec![1; 32]]);
    assert_eq!(r.rejected_low_fee, 0);
}

#[test]
fn without_validation_unavailable_inputs_pass() {
    let (on_chain, in_pool) = chain_and_pool();
    let r = select_ordered(&candidates(), 10, 5, false, &on_chain, &in_pool);
    assert_eq!(r.selected, vec![vec![1; 32], vec![4; 32], vec![5; 32]]);
    assert_eq!(r.rejected_validation, 0);
}
