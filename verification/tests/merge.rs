use crdt::{merge, DAGNode, DagError, NodeStore};
use std::collections::{BTreeMap, BTreeSet};

/// The history of a store by identity: payload and identities of the predecessors.
fn history(store: &NodeStore<i64>) -> BTreeMap<u64, (i64, BTreeSet<u64>)> {
    let nodes: &Vec<DAGNode<i64>> = store.nodes();
    let mut result = BTreeMap::new();
    for node in nodes {
        let named: BTreeSet<u64> = node.predecessors.iter().map(|p| nodes[*p].identity).collect();
        assert!(result.insert(node.identity, (node.current_data, named)).is_none());
    }
    result
}

fn entry(payload: i64, predecessors: &[u64]) -> (i64, BTreeSet<u64>) {
    (payload, predecessors.iter().copied().collect())
}

fn chain() -> NodeStore<i64> {
    let mut store = NodeStore::new();
    store.insert(1, 10, vec![]).unwrap();
    store.insert(2, 20, vec![0]).unwrap();
    store.insert(3, 30, vec![1]).unwrap();
    store
}

#[test]
fn merge_with_itself_changes_nothing() {
    let store = chain();
    let merged = merge(&store, &store).unwrap();
    assert_eq!(history(&merged), history(&store));
    assert_eq!(merged.nodes(), store.nodes());
}

#[test]
fn merge_of_empty_stores_is_empty() {
    let a: NodeStore<i64> = NodeStore::new();
    let b: NodeStore<i64> = NodeStore::new();
    assert_eq!(merge(&a, &b).unwrap().len(), 0);
    let c = chain();
    assert_eq!(history(&merge(&a, &c).unwrap()), history(&c));
    assert_eq!(history(&merge(&c, &a).unwrap()), history(&c));
}

#[test]
fn merge_keeps_every_operation_once() {
    // both replicas start from operation 1 and grow on their own
    let mut a = NodeStore::new();
    a.insert(1, 10, vec![]).unwrap();
    a.insert(2, 20, vec![0]).unwrap();
    let mut b = NodeStore::new();
    b.insert(3, 30, vec![]).unwrap();
    b.insert(1, 10, vec![]).unwrap();
    b.insert(4, 40, vec![0, 1]).unwrap();
    let merged = merge(&a, &b).unwrap();
    assert_eq!(merged.len(), 4);
    let mut expected = BTreeMap::new();
    expected.insert(1, entry(10, &[]));
    expected.insert(2, entry(20, &[1]));
    expected.insert(3, entry(30, &[]));
    expected.insert(4, entry(40, &[1, 3]));
    assert_eq!(history(&merged), expected);
}

#[test]
fn merge_unites_the_predecessors_of_a_shared_operation() {
    let mut a = NodeStore::new();
    a.insert(1, 10, vec![]).unwrap();
    a.insert(2, 20, vec![]).unwrap();
    a.insert(9, 90, vec![0]).unwrap();
    let mut b = NodeStore::new();
    b.insert(2, 20, vec![]).unwrap();
    b.insert(3, 30, vec![]).unwrap();
    b.insert(9, 90, vec![0, 1]).unwrap();
    let merged = merge(&a, &b).unwrap();
    let mut expected = BTreeMap::new();
    expected.insert(1, entry(10, &[]));
    expected.insert(2, entry(20, &[]));
    expected.insert(3, entry(30, &[]));
    expected.insert(9, entry(90, &[1, 2, 3]));
    assert_eq!(history(&merged), expected);
}

#[test]
fn merge_does_not_depend_on_which_store_comes_first() {
    let mut a = NodeStore::new();
    a.insert(1, 10, vec![]).unwrap();
    a.insert(2, 20, vec![0]).unwrap();
    a.insert(5, 50, vec![0, 1]).unwrap();
    let mut b = NodeStore::new();
    b.insert(7, 70, vec![]).unwrap();
    b.insert(2, 20, vec![0]).unwrap();
    b.insert(1, 10, vec![]).unwrap();
    b.insert(8, 80, vec![1, 2]).unwrap();
    let one = merge(&a, &b).unwrap();
    let other = merge(&b, &a).unwrap();
    assert_eq!(history(&one), history(&other));
    assert_eq!(one.len(), 5);
}

#[test]
fn merge_leaves_its_inputs_as_they_are() {
    let a = chain();
    let mut b = NodeStore::new();
    b.insert(4, 40, vec![]).unwrap();
    let before_a = history(&a);
    let before_b = history(&b);
    let merged = merge(&a, &b).unwrap();
    assert_eq!(merged.len(), 4);
    assert_eq!(history(&a), before_a);
    assert_eq!(history(&b), before_b);
}

#[test]
fn merge_rejects_one_identity_with_two_payloads() {
    let mut a = NodeStore::new();
    a.insert(1, 10, vec![]).unwrap();
    let mut b = NodeStore::new();
    b.insert(1, 11, vec![]).unwrap();
    assert_eq!(merge(&a, &b).err(), Some(DagError::IdentityCollision));
    assert_eq!(merge(&b, &a).err(), Some(DagError::IdentityCollision));
}

#[test]
fn merge_rejects_contradictory_causal_direction() {
    // replica a says that 2 depends on 1, replica b that 1 depends on 2
    let mut a = NodeStore::new();
    a.insert(1, 10, vec![]).unwrap();
    a.insert(2, 20, vec![0]).unwrap();
    let mut b = NodeStore::new();
    b.insert(2, 20, vec![]).unwrap();
    b.insert(1, 10, vec![0]).unwrap();
    assert_eq!(merge(&a, &b).err(), Some(DagError::InconsistentCausalOrder));
    assert_eq!(merge(&b, &a).err(), Some(DagError::InconsistentCausalOrder));
}

#[test]
fn merge_finds_a_cycle_through_operations_of_both_stores() {
    // a: 1 <- 2, 3;  b: 2 <- 3 <- 1 (through operations that a holds without edges)
    let mut a = NodeStore::new();
    a.insert(1, 10, vec![]).unwrap();
    a.insert(3, 30, vec![]).unwrap();
    a.insert(2, 20, vec![0]).unwrap();
    let mut b = NodeStore::new();
    b.insert(2, 20, vec![]).unwrap();
    b.insert(3, 30, vec![0]).unwrap();
    b.insert(1, 10, vec![1]).unwrap();
    assert_eq!(merge(&a, &b).err(), Some(DagError::InconsistentCausalOrder));
}

#[test]
fn collision_is_reported_before_contradiction() {
    let mut a = NodeStore::new();
    a.insert(1, 10, vec![]).unwrap();
    a.insert(2, 20, vec![0]).unwrap();
    let mut b = NodeStore::new();
    b.insert(2, 21, vec![]).unwrap();
    b.insert(1, 10, vec![0]).unwrap();
    assert_eq!(merge(&a, &b).err(), Some(DagError::IdentityCollision));
}

#[test]
fn merged_store_can_be_merged_and_grown_again() {
    let mut a = NodeStore::new();
    a.insert(1, 10, vec![]).unwrap();
    let mut b = NodeStore::new();
    b.insert(2, 20, vec![]).unwrap();
    let mut merged = merge(&a, &b).unwrap();
    assert_eq!(merged.insert(3, 30, vec![0, 1]), Ok(2));
    let again = merge(&merged, &a).unwrap();
    assert_eq!(history(&again), history(&merged));
    assert_eq!(again.roots(), vec![2]);
}

#[test]
fn merge_keeps_the_positions_of_the_local_nodes() {
    let mut a = NodeStore::new();
    a.insert(5, 50, vec![]).unwrap();
    a.insert(6, 60, vec![0]).unwrap();
    let mut b = NodeStore::new();
    b.insert(9, 90, vec![]).unwrap();
    b.insert(5, 50, vec![0]).unwrap();
    b.insert(8, 80, vec![1]).unwrap();
    let merged = merge(&a, &b).unwrap();
    assert_eq!(merged.find(5), Some(0));
    assert_eq!(merged.find(6), Some(1));
    assert_eq!(merged.find(9), Some(2));
    assert_eq!(merged.find(8), Some(3));
    assert_eq!(merged.lookup(0).unwrap().predecessors, vec![2]);
    assert_eq!(merged.lookup(3).unwrap().predecessors, vec![0]);
}

#[test]
fn snapshot_of_a_remote_store_merges_like_the_store() {
    let a = chain();
    let mut b = NodeStore::new();
    b.insert(3, 30, vec![]).unwrap();
    b.insert(4, 40, vec![0]).unwrap();
    let received = NodeStore::import_snapshot(b.export_snapshot()).unwrap();
    assert_eq!(history(&merge(&a, &received).unwrap()), history(&merge(&a, &b).unwrap()));
}
