use klomang_mempool::multi_dimensional_index::{IndexedTransaction, MultiDimensionalIndex};

fn create_tx(hash: Vec<u8>, fee_rate: u64, arrival: u64, deps: u32) -> IndexedTransaction {
    IndexedTransaction::new(hash, fee_rate, arrival, deps, 250, fee_rate * 250)
}

#[test]
fn test_economic_dimension() {
    let mut index = MultiDimensionalIndex::new();

    index.insert(create_tx(vec![1], 50, 1000, 0)).unwrap();
    index.insert(create_tx(vec![2], 100, 1000, 0)).unwrap();
    index.insert(create_tx(vec![3], 75, 1000, 0)).unwrap();

    let results = index.query_economic_range(60, 110).unwrap();
    assert_eq!(results.len(), 2);
    assert!(results[0].fee_rate >= results[1].fee_rate);
}

#[test]
fn test_temporal_dimension() {
    let mut index = MultiDimensionalIndex::new();

    index.insert(create_tx(vec![1], 50, 1000, 0)).unwrap();
    index.insert(create_tx(vec![2], 50, 2000, 0)).unwrap();
    index.insert(create_tx(vec![3], 50, 3000, 0)).unwrap();

    let results = index.query_temporal_before(2500).unwrap();
    assert_eq!(results.len(), 2);
    assert!(results[0].arrival_time <= results[1].arrival_time);
}

#[test]
fn test_structural_dimension() {
    let mut index = MultiDimensionalIndex::new();

    index.insert(create_tx(vec![1], 50, 1000, 1)).unwrap();
    index.insert(create_tx(vec![2], 50, 1000, 5)).unwrap();
    index.insert(create_tx(vec![3], 50, 1000, 3)).unwrap();

    let results = index.query_structural_min_dependents(2).unwrap();
    assert_eq!(results.len(), 2);
    assert!(results[0].dependency_count >= results[1].dependency_count);
}

#[test]
fn test_combined_query() {
    let mut index = MultiDimensionalIndex::new();

    index.insert(create_tx(vec![1], 50, 1000, 0)).unwrap();
    index.insert(create_tx(vec![2], 100, 2000, 2)).unwrap();
    index.insert(create_tx(vec![3], 75, 3000, 5)).unwrap();

    let results = index.query_combined(60, 110, 1500, 3500, 1).unwrap();
    assert!(!results.is_empty());
}

#[test]
fn combined_query_keeps_fee_order_and_every_bound() {
    let mut index = MultiDimensionalIndex::new();
    index.insert(create_tx(vec![1], 50, 1000, 0)).unwrap();
    index.insert(create_tx(vec![2], 100, 2000, 2)).unwrap();
    index.insert(create_tx(vec![3], 75, 3000, 5)).unwrap();
    index.insert(create_tx(vec![4], 90, 4000, 5)).unwrap();

    let results = index.query_combined(60, 110, 1500, 3500, 1).unwrap();
    let hashes: Vec<Vec<u8>> = results.iter().map(|t| t.tx_hash.clone()).collect();
    assert_eq!(hashes, vec![vec![2], vec![3]]);
    let stats = index.get_stats().unwrap();
    assert_eq!(stats.economic_queries, 1);
    assert_eq!(stats.temporal_queries, 1);
    assert_eq!(stats.structural_queries, 1);
}

#[test]
fn top_n_and_hubs_take_the_head_of_each_order() {
    let mut index = MultiDimensionalIndex::new();
    index.insert(create_tx(vec![1], 10, 300, 7)).unwrap();
    index.insert(create_tx(vec![2], 30, 100, 1)).unwrap();
    index.insert(create_tx(vec![3], 20, 200, 4)).unwrap();

    let top: Vec<u64> = index.query_economic_top_n(2).unwrap().iter().map(|t| t.fee_rate).collect();
    assert_eq!(top, vec![30, 20]);
    let hubs: Vec<u32> = index.query_structural_top_hubs(2).unwrap().iter().map(|t| t.dependency_count).collect();
    assert_eq!(hubs, vec![7, 4]);
    let after: Vec<u64> = index.query_temporal_after(100).unwrap().iter().map(|t| t.arrival_time).collect();
    assert_eq!(after, vec![200, 300]);
    let range: Vec<u64> = index.query_temporal_range(100, 200).unwrap().iter().map(|t| t.arrival_time).collect();
    assert_eq!(range, vec![100, 200]);
    assert_eq!(index.query_economic_top_n(10).unwrap().len(), 3);
}

#[test]
fn update_moves_a_record_to_its_new_place() {
    let mut index = MultiDimensionalIndex::new();
    index.insert(create_tx(vec![1], 10, 100, 0)).unwrap();
    index.insert(create_tx(vec![2], 20, 200, 0)).unwrap();
    index.update(create_tx(vec![1], 40, 100, 0)).unwrap();

    assert_eq!(index.all_count().unwrap(), 2);
    let order: Vec<Vec<u8>> = index.query_economic_top_n(5).unwrap().iter().map(|t| t.tx_hash.clone()).collect();
    assert_eq!(order, vec![vec![1], vec![2]]);
    assert_eq!(index.get_by_hash(&vec![1]).unwrap().unwrap().fee_rate, 40);
    assert_eq!(index.get_stats().unwrap().updates, 1);
}

#[test]
fn removal_takes_a_record_out_of_every_dimension() {
    let mut index = MultiDimensionalIndex::new();
    index.insert(create_tx(vec![1], 10, 100, 3)).unwrap();
    index.insert(create_tx(vec![2], 20, 200, 1)).unwrap();

    let removed = index.remove(&vec![1]).unwrap().unwrap();
    assert_eq!(removed.fee_rate, 10);
    assert!(index.remove(&vec![1]).unwrap().is_none());
    assert!(index.get_by_hash(&vec![1]).unwrap().is_none());
    assert_eq!(index.query_economic_range(0, 100).unwrap().len(), 1);
    assert_eq!(index.query_temporal_before(1000).unwrap().len(), 1);
    assert_eq!(index.query_structural_min_dependents(0).unwrap().len(), 1);
    let stats = index.get_stats().unwrap();
    assert_eq!(stats.insertions, 2);
    assert_eq!(stats.removals, 1);
    assert_eq!(stats.total_transactions, 1);
}

#[test]
fn reset_forgets_everything() {
    let mut index = MultiDimensionalIndex::new();
    index.insert(create_tx(vec![1], 10, 100, 3)).unwrap();
    index.reset().unwrap();
    assert_eq!(index.all_count().unwrap(), 0);
    assert!(index.all_transactions().unwrap().is_empty());
    assert_eq!(index.get_stats().unwrap().insertions, 0);
}

#[test]
fn reinserting_a_hash_replaces_its_entries() {
    let mut index = MultiDimensionalIndex::new();
    index.insert(IndexedTransaction::new(vec![1], 50, 1000, 0, 250, 12500)).unwrap();
    index.insert(IndexedTransaction::new(vec![1], 100, 1000, 0, 250, 25000)).unwrap();
    assert_eq!(index.all_count().unwrap(), 1);
    assert_eq!(index.query_economic_top_n(10).unwrap().len(), 1);
    assert!(index.query_economic_range(0, 60).unwrap().is_empty());
    assert_eq!(index.query_temporal_before(5000).unwrap().len(), 1);
    let stats = index.get_stats().unwrap();
    assert_eq!(stats.insertions, 2);
    assert_eq!(stats.total_transactions, 1);
}
