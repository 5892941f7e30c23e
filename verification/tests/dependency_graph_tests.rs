use klomang_mempool::advanced_conflicts::TxHash;
use klomang_mempool::dependency_graph::{ConflictPartition, DependencyGraph, TransactionDependency};

fn tx_hash(id: u8) -> TxHash {
    TxHash::new(vec![id; 32])
}

#[test]
fn test_dependency_graph_creation() {
    let graph = DependencyGraph::new();
    assert!(graph.is_empty());
}

#[test]
fn test_register_transaction() {
    let mut graph = DependencyGraph::new();
    let tx = tx_hash(1);

    graph.register_transaction(&tx);
    assert_eq!(graph.len(), 1);
}

#[test]
fn test_add_dependency() {
    let mut graph = DependencyGraph::new();
    let parent = tx_hash(1);
    let child = tx_hash(2);

    graph.register_transaction(&parent);
    graph.register_transaction(&child);

    let result = graph.add_dependency(&child, &parent);
    assert!(result.is_ok());

    let children = graph.get_dependents(&parent);
    assert!(children.contains(&child));

    let parents = graph.get_parents(&child);
    assert!(parents.contains(&parent));
}

#[test]
fn test_mark_conflict() {
    let mut graph = DependencyGraph::new();
    let parent = tx_hash(1);
    let child = tx_hash(2);

    graph.register_transaction(&parent);
    graph.register_transaction(&child);
    graph.add_dependency(&child, &parent).ok();

    let affected = graph.mark_conflict(&parent, "Test conflict".to_string());
    assert!(affected.is_ok());

    assert!(graph.is_in_conflict(&parent));
    assert!(graph.is_in_conflict(&child));
}

#[test]
fn test_partition_merging() {
    let mut graph = DependencyGraph::new();
    let tx1 = tx_hash(1);
    let tx2 = tx_hash(2);

    graph.register_transaction(&tx1);
    graph.register_transaction(&tx2);

    let partition1 = graph.get_partition(&tx1);
    let partition2 = graph.get_partition(&tx2);
    assert_ne!(partition1.as_ref().map(|p| p.id), partition2.as_ref().map(|p| p.id));

    graph.add_dependency(&tx2, &tx1).ok();

    let new_partition2 = graph.get_partition(&tx2);
    assert_eq!(partition1.as_ref().map(|p| p.id), new_partition2.as_ref().map(|p| p.id));
}

#[test]
fn test_find_affected_downstream() {
    let mut graph = DependencyGraph::new();

    let tx1 = tx_hash(1);
    let tx2 = tx_hash(2);
    let tx3 = tx_hash(3);

    graph.register_transaction(&tx1);
    graph.register_transaction(&tx2);
    graph.register_transaction(&tx3);

    graph.add_dependency(&tx2, &tx1).ok();
    graph.add_dependency(&tx3, &tx2).ok();

    let affected = graph.find_affected_downstream(&tx1);
    assert_eq!(affected.len(), 3);
    assert!(affected.contains(&tx1));
    assert!(affected.contains(&tx2));
    assert!(affected.contains(&tx3));
}

#[test]
fn dependency_graph_test_remove_transaction() {
    let mut graph = DependencyGraph::new();
    let tx = tx_hash(1);

    graph.register_transaction(&tx);
    assert_eq!(graph.len(), 1);

    graph.remove_transaction(&tx).ok();
    assert_eq!(graph.len(), 0);
}

#[test]
fn test_conflict_reason() {
    let mut graph = DependencyGraph::new();
    let tx = tx_hash(1);

    graph.register_transaction(&tx);
    graph.mark_conflict(&tx, "Double spend detected".to_string()).ok();

    let reason = graph.get_conflict_reason(&tx);
    assert_eq!(reason, Some("Double spend detected".to_string()));
}

#[test]
fn mark_conflict_needs_a_partition() {
    let mut graph = DependencyGraph::new();
    let r = graph.mark_conflict(&tx_hash(1), "x".to_string());
    assert_eq!(r, Err("Transaction not in graph".to_string()));
}

#[test]
fn partitions_get_fresh_identifiers() {
    let mut graph = DependencyGraph::new();
    graph.register_transaction(&tx_hash(1));
    graph.register_transaction(&tx_hash(2));
    graph.register_transaction(&tx_hash(1));
    assert_eq!(graph.get_partition(&tx_hash(1)).unwrap().id, 1);
    assert_eq!(graph.get_partition(&tx_hash(2)).unwrap().id, 2);
    assert_eq!(graph.get_stats().total_partitions, 2);
}

#[test]
fn conflict_spreads_to_descendants_only() {
    let mut graph = DependencyGraph::new();
    graph.add_dependency(&tx_hash(2), &tx_hash(1)).unwrap();
    graph.add_dependency(&tx_hash(3), &tx_hash(2)).unwrap();
    let mut members = graph.get_partition_members(&tx_hash(3));
    members.sort();
    assert_eq!(members, vec![tx_hash(1), tx_hash(2), tx_hash(3)]);
    let affected = graph.mark_conflict(&tx_hash(2), "conflict".to_string()).unwrap();
    assert_eq!(affected, vec![tx_hash(2), tx_hash(3)]);
    assert!(graph.is_in_conflict(&tx_hash(2)));
    assert!(graph.is_in_conflict(&tx_hash(3)));
    assert!(!graph.is_in_conflict(&tx_hash(1)));
    assert_eq!(graph.get_conflict_reason(&tx_hash(1)), None);
    let stats = graph.get_stats();
    assert_eq!(stats.total_dependencies, 2);
    assert_eq!(stats.conflict_propagations, 1);
    assert_eq!(stats.affected_transactions, 2);
}

#[test]
fn marking_a_child_leaves_its_parent() {
    let mut graph = DependencyGraph::new();
    let p = tx_hash(1);
    let c = tx_hash(2);
    graph.register_transaction(&p);
    graph.register_transaction(&c);
    graph.add_dependency(&c, &p).unwrap();
    assert_eq!(graph.mark_conflict(&c, "x".to_string()), Ok(vec![c.clone()]));
    assert!(graph.is_in_conflict(&c));
    assert!(!graph.is_in_conflict(&p));
    assert_eq!(graph.get_conflict_reason(&p), None);
}

#[test]
fn merged_partition_takes_the_child_conflict() {
    let mut graph = DependencyGraph::new();
    graph.register_transaction(&tx_hash(1));
    graph.register_transaction(&tx_hash(2));
    graph.mark_conflict(&tx_hash(2), "child side".to_string()).unwrap();
    graph.add_dependency(&tx_hash(2), &tx_hash(1)).unwrap();
    let p = graph.get_partition(&tx_hash(1)).unwrap();
    assert!(p.in_conflict);
    assert_eq!(p.conflict_reason, Some("child side".to_string()));
}

#[test]
fn removal_unlinks_both_sides() {
    let mut graph = DependencyGraph::new();
    graph.add_dependency(&tx_hash(2), &tx_hash(1)).unwrap();
    graph.add_dependency(&tx_hash(3), &tx_hash(2)).unwrap();
    graph.remove_transaction(&tx_hash(2)).unwrap();
    assert!(graph.get_dependents(&tx_hash(1)).is_empty());
    assert!(graph.get_parents(&tx_hash(3)).is_empty());
    assert!(graph.get_partition(&tx_hash(2)).is_none());
}

#[test]
fn partition_and_dependency_constructors() {
    let mut p = ConflictPartition::new(7);
    assert_eq!(p.id, 7);
    assert!(!p.in_conflict);
    p.mark_conflict("r".to_string());
    assert!(p.in_conflict);
    assert_eq!(p.conflict_reason, Some("r".to_string()));
    let d = TransactionDependency::new(&tx_hash(1));
    assert!(!d.in_conflict);
    assert!(d.parents.is_empty());
}
