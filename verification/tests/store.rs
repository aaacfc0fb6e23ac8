use crdt::store::insert_sorted;
use crdt::{counter, topological_sort, DagError, NodeStore};

#[test]
fn new_store_is_empty() {
    let store: NodeStore<i64> = NodeStore::new();
    assert_eq!(store.len(), 0);
    assert!(store.lookup(0).is_none());
    assert!(store.roots().is_empty());
    assert!(store.sources().is_empty());
    assert_eq!(store.find(1), None);
}

#[test]
fn insert_gives_positions_in_order() {
    let mut store = NodeStore::new();
    assert_eq!(store.insert(100, 0i64, vec![]), Ok(0));
    assert_eq!(store.insert(200, 5i64, vec![0]), Ok(1));
    assert_eq!(store.len(), 2);
    let node = store.lookup(1).unwrap();
    assert_eq!(node.identity, 200);
    assert_eq!(node.current_data, 5);
    assert_eq!(node.predecessors, vec![0]);
    assert!(store.lookup(2).is_none());
}

#[test]
fn insert_keeps_predecessors_as_an_ascending_set() {
    let mut store = NodeStore::new();
    for i in 0..4u64 {
        store.insert(i, i as i64, vec![]).unwrap();
    }
    assert_eq!(store.insert(9, 0, vec![3, 1, 3, 0, 1]), Ok(4));
    assert_eq!(store.lookup(4).unwrap().predecessors, vec![0, 1, 3]);
}

#[test]
fn insert_rejects_unknown_predecessor() {
    let mut store = NodeStore::new();
    store.insert(1, 0i64, vec![]).unwrap();
    assert_eq!(store.insert(2, 0, vec![0, 1]), Err(DagError::UnknownPredecessor));
    assert_eq!(store.insert(2, 0, vec![5]), Err(DagError::UnknownPredecessor));
    assert_eq!(store.len(), 1);
    let mut empty = NodeStore::new();
    assert_eq!(empty.insert(1, 0i64, vec![0]), Err(DagError::UnknownPredecessor));
}

#[test]
fn insert_rejects_identity_that_is_taken() {
    let mut store = NodeStore::new();
    store.insert(1, 0i64, vec![]).unwrap();
    assert_eq!(store.insert(1, 3, vec![0]), Err(DagError::IdentityCollision));
    assert_eq!(store.len(), 1);
    // the predecessors are looked at first
    assert_eq!(store.insert(1, 3, vec![4]), Err(DagError::UnknownPredecessor));
}

#[test]
fn same_payload_and_predecessors_are_still_two_nodes() {
    let mut store = NodeStore::new();
    store.insert(1, 4i64, vec![]).unwrap();
    assert_eq!(store.insert(2, 8, vec![0]), Ok(1));
    assert_eq!(store.insert(3, 8, vec![0]), Ok(2));
    assert_eq!(store.len(), 3);
    let order = topological_sort(store.nodes(), store.roots()).unwrap();
    assert_eq!(counter(store.nodes(), &order), 20);
}

#[test]
fn find_gives_the_position_of_an_identity() {
    let mut store = NodeStore::new();
    store.insert(30, 0i64, vec![]).unwrap();
    store.insert(10, 0i64, vec![]).unwrap();
    store.insert(20, 0i64, vec![1]).unwrap();
    assert_eq!(store.find(10), Some(1));
    assert_eq!(store.find(20), Some(2));
    assert_eq!(store.find(30), Some(0));
    assert_eq!(store.find(40), None);
}

#[test]
fn roots_and_sources() {
    let mut store = NodeStore::new();
    store.insert(1, 0i64, vec![]).unwrap(); // 0
    store.insert(2, 0i64, vec![]).unwrap(); // 1
    store.insert(3, 0i64, vec![0]).unwrap(); // 2
    store.insert(4, 0i64, vec![0, 1]).unwrap(); // 3
    store.insert(5, 0i64, vec![]).unwrap(); // 4
    assert_eq!(store.sources(), vec![0, 1, 4]);
    assert_eq!(store.roots(), vec![2, 3, 4]);
}

#[test]
fn traversal_from_the_roots_reaches_every_node() {
    let mut store = NodeStore::new();
    store.insert(1, 1i64, vec![]).unwrap();
    store.insert(2, 2i64, vec![0]).unwrap();
    store.insert(3, 4i64, vec![0]).unwrap();
    store.insert(4, 8i64, vec![1, 2]).unwrap();
    store.insert(5, 16i64, vec![]).unwrap();
    let order = topological_sort(store.nodes(), store.roots()).unwrap();
    assert_eq!(order.len(), store.len());
    assert_eq!(order, vec![4, 0, 1, 2, 3]);
    assert_eq!(counter(store.nodes(), &order), 31);
}

#[test]
fn insert_sorted_keeps_the_list_a_set() {
    let mut list = Vec::new();
    for x in [5usize, 1, 9, 5, 0, 9, 3] {
        insert_sorted(&mut list, x);
    }
    assert_eq!(list, vec![0, 1, 3, 5, 9]);
}

#[test]
fn exported_snapshot_can_be_imported() {
    let mut store = NodeStore::new();
    store.insert(7, 1i64, vec![]).unwrap();
    store.insert(8, 2i64, vec![0]).unwrap();
    store.insert(9, 3i64, vec![1, 0]).unwrap();
    let snapshot = store.export_snapshot();
    assert_eq!(&snapshot, store.nodes());
    let copy = NodeStore::import_snapshot(snapshot).unwrap();
    assert_eq!(copy.nodes(), store.nodes());
}

#[test]
fn import_puts_predecessors_in_ascending_order() {
    let nodes = vec![
        crdt::DAGNode { identity: 5, predecessors: vec![2, 1, 2], current_data: 'a' },
        crdt::DAGNode { identity: 6, predecessors: vec![], current_data: 'b' },
        crdt::DAGNode { identity: 7, predecessors: vec![1], current_data: 'c' },
    ];
    let store = NodeStore::import_snapshot(nodes).unwrap();
    assert_eq!(store.lookup(0).unwrap().predecessors, vec![1, 2]);
    assert_eq!(store.lookup(2).unwrap().predecessors, vec![1]);
    assert_eq!(store.lookup(0).unwrap().current_data, 'a');
    assert_eq!(store.roots(), vec![0]);
}

#[test]
fn import_rejects_what_is_no_store() {
    let dangling = vec![crdt::DAGNode { identity: 1, predecessors: vec![1], current_data: 0 }];
    assert_eq!(NodeStore::import_snapshot(dangling).err(), Some(DagError::UnknownPredecessor));
    let twice = vec![
        crdt::DAGNode { identity: 1, predecessors: vec![], current_data: 0 },
        crdt::DAGNode { identity: 2, predecessors: vec![], current_data: 0 },
        crdt::DAGNode { identity: 1, predecessors: vec![], current_data: 0 },
    ];
    assert_eq!(NodeStore::import_snapshot(twice).err(), Some(DagError::IdentityCollision));
    let cycle = vec![
        crdt::DAGNode { identity: 1, predecessors: vec![1], current_data: 0 },
        crdt::DAGNode { identity: 2, predecessors: vec![0], current_data: 0 },
    ];
    assert_eq!(NodeStore::import_snapshot(cycle).err(), Some(DagError::CycleDetected));
    // the first that applies is reported
    let all = vec![
        crdt::DAGNode { identity: 1, predecessors: vec![0], current_data: 0 },
        crdt::DAGNode { identity: 1, predecessors: vec![9], current_data: 0 },
    ];
    assert_eq!(NodeStore::import_snapshot(all).err(), Some(DagError::UnknownPredecessor));
    let two = vec![
        crdt::DAGNode { identity: 1, predecessors: vec![0], current_data: 0 },
        crdt::DAGNode { identity: 1, predecessors: vec![], current_data: 0 },
    ];
    assert_eq!(NodeStore::import_snapshot(two).err(), Some(DagError::IdentityCollision));
}

#[test]
fn imported_store_need_not_be_in_causal_order() {
    let nodes = vec![
        crdt::DAGNode { identity: 1, predecessors: vec![2], current_data: 1i64 },
        crdt::DAGNode { identity: 2, predecessors: vec![], current_data: 2i64 },
        crdt::DAGNode { identity: 3, predecessors: vec![1], current_data: 4i64 },
    ];
    let store = NodeStore::import_snapshot(nodes).unwrap();
    let order = topological_sort(store.nodes(), store.roots()).unwrap();
    assert_eq!(order, vec![1, 2, 0]);
    assert_eq!(counter(store.nodes(), &order), 7);
}

#[test]
fn ordered_history_replays_every_node_once() {
    let empty: NodeStore<i64> = NodeStore::new();
    assert_eq!(empty.ordered_history(), Vec::<usize>::new());
    let mut store = NodeStore::new();
    store.insert(1, 1i64, vec![]).unwrap();
    store.insert(2, 2i64, vec![0]).unwrap();
    store.insert(3, 4i64, vec![0]).unwrap();
    store.insert(4, 8i64, vec![1, 2]).unwrap();
    store.insert(5, 16i64, vec![]).unwrap();
    let order = store.ordered_history();
    assert_eq!(order, vec![4, 0, 1, 2, 3]);
    assert_eq!(Ok(order), topological_sort(store.nodes(), store.roots()));
}
