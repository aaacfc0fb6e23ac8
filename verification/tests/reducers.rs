use crdt::{
    counter, max, min, observed_remove_set, topological_sort, AddOrRemove, CurrentState, DAGNode,
    DAGNodeCounter,
};
use std::collections::BTreeSet;

fn delta(identity: u64, predecessors: Vec<usize>, data: i64) -> DAGNodeCounter {
    DAGNode { identity, predecessors, current_data: data }
}

fn op(identity: u64, predecessors: Vec<usize>, data: AddOrRemove<i32>) -> DAGNode<AddOrRemove<i32>> {
    DAGNode { identity, predecessors, current_data: data }
}

#[test]
fn counter_of_two_node_history_is_five() {
    let nodes = vec![delta(1, vec![], 0), delta(2, vec![0], 5)];
    let order = topological_sort(&nodes, vec![1]).unwrap();
    assert_eq!(order, vec![0, 1]);
    assert_eq!(counter(&nodes, &order), 5);
}

#[test]
fn counter_of_empty_history_is_zero() {
    let nodes: Vec<DAGNodeCounter> = vec![];
    assert_eq!(counter(&nodes, &vec![]), 0);
    let nodes = vec![delta(1, vec![], 9)];
    assert_eq!(counter(&nodes, &vec![]), 0);
}

#[test]
fn counter_adds_negative_deltas() {
    let nodes = vec![delta(1, vec![], 7), delta(2, vec![0], -10), delta(3, vec![1], 4)];
    assert_eq!(counter(&nodes, &vec![0, 1, 2]), 1);
}

#[test]
fn counter_may_pass_the_bounds_on_the_way() {
    let nodes = vec![
        delta(1, vec![], i64::MAX),
        delta(2, vec![], i64::MAX),
        delta(3, vec![], i64::MIN),
        delta(4, vec![], i64::MIN),
        delta(5, vec![], 3),
    ];
    assert_eq!(counter(&nodes, &vec![0, 1, 2, 3, 4]), 1);
    assert_eq!(counter(&nodes, &vec![3, 2, 4, 1, 0]), 1);
}

#[test]
fn counter_does_not_depend_on_the_order() {
    let nodes = vec![delta(1, vec![], 3), delta(2, vec![], -8), delta(3, vec![], 21)];
    let orders = vec![
        vec![0, 1, 2],
        vec![0, 2, 1],
        vec![1, 0, 2],
        vec![1, 2, 0],
        vec![2, 0, 1],
        vec![2, 1, 0],
    ];
    for order in &orders {
        assert_eq!(counter(&nodes, order), 16);
    }
}

#[test]
fn extremes_of_empty_history_are_none() {
    let nodes: Vec<DAGNode<i64>> = vec![];
    assert_eq!(max(&nodes, &vec![]), None);
    assert_eq!(min(&nodes, &vec![]), None);
}

#[test]
fn extremes_of_one_node() {
    let nodes = vec![delta(1, vec![], -4)];
    assert_eq!(max(&nodes, &vec![0]), Some(-4));
    assert_eq!(min(&nodes, &vec![0]), Some(-4));
}

#[test]
fn extremes_do_not_depend_on_the_order() {
    let nodes = vec![delta(1, vec![], 3), delta(2, vec![], -8), delta(3, vec![], 21)];
    let orders = vec![
        vec![0, 1, 2],
        vec![0, 2, 1],
        vec![1, 0, 2],
        vec![1, 2, 0],
        vec![2, 0, 1],
        vec![2, 1, 0],
    ];
    for order in &orders {
        assert_eq!(max(&nodes, order), Some(21));
        assert_eq!(min(&nodes, order), Some(-8));
    }
}

#[test]
fn extremes_look_only_at_the_nodes_of_the_order() {
    let nodes = vec![delta(1, vec![], 3), delta(2, vec![], -8), delta(3, vec![], 21)];
    assert_eq!(max(&nodes, &vec![0, 1]), Some(3));
    assert_eq!(min(&nodes, &vec![0, 2]), Some(3));
}

#[test]
fn extremes_of_other_payloads() {
    let nodes = vec![
        DAGNode { identity: 1, predecessors: vec![], current_data: (2u8, 'b') },
        DAGNode { identity: 2, predecessors: vec![], current_data: (2u8, 'a') },
        DAGNode { identity: 3, predecessors: vec![], current_data: (1u8, 'z') },
    ];
    assert_eq!(max(&nodes, &vec![0, 1, 2]), Some((2u8, 'b')));
    assert_eq!(min(&nodes, &vec![0, 1, 2]), Some((1u8, 'z')));
}

#[test]
fn removal_after_addition_leaves_the_value_out() {
    let nodes = vec![
        op(1, vec![], AddOrRemove::Add(7)),
        op(2, vec![0], AddOrRemove::Remove(7)),
    ];
    let order = topological_sort(&nodes, vec![1]).unwrap();
    assert_eq!(order, vec![0, 1]);
    assert_eq!(observed_remove_set(&nodes, &order), BTreeSet::new());
}

#[test]
fn addition_after_removal_leaves_the_value_in() {
    let nodes = vec![
        op(1, vec![], AddOrRemove::Remove(7)),
        op(2, vec![0], AddOrRemove::Add(7)),
    ];
    let order = topological_sort(&nodes, vec![1]).unwrap();
    assert_eq!(order, vec![0, 1]);
    let expected: BTreeSet<i32> = [7].into_iter().collect();
    assert_eq!(observed_remove_set(&nodes, &order), expected);
}

#[test]
fn causal_chain_decides_whatever_the_start_order() {
    // position does not follow causality here: the removal stands first
    let nodes = vec![
        op(1, vec![1], AddOrRemove::Remove(7)),
        op(2, vec![], AddOrRemove::Add(7)),
        op(3, vec![], AddOrRemove::Add(9)),
    ];
    for starts in [vec![0, 1, 2], vec![2, 1, 0], vec![1, 2, 0], vec![0, 2, 1]] {
        let order = topological_sort(&nodes, starts).unwrap();
        let expected: BTreeSet<i32> = [9].into_iter().collect();
        assert_eq!(observed_remove_set(&nodes, &order), expected);
    }
}

#[test]
fn concurrent_addition_and_removal_go_by_replay_order() {
    let nodes = vec![
        op(1, vec![], AddOrRemove::Add(7)),
        op(2, vec![], AddOrRemove::Remove(7)),
    ];
    let expected: BTreeSet<i32> = [7].into_iter().collect();
    assert_eq!(observed_remove_set(&nodes, &vec![1, 0]), expected);
    assert_eq!(observed_remove_set(&nodes, &vec![0, 1]), BTreeSet::new());
}

#[test]
fn removal_of_absent_value_changes_nothing() {
    let nodes = vec![
        op(1, vec![], AddOrRemove::Add(1)),
        op(2, vec![], AddOrRemove::Remove(2)),
        op(3, vec![], AddOrRemove::Add(3)),
        op(4, vec![], AddOrRemove::Add(1)),
    ];
    let expected: BTreeSet<i32> = [1, 3].into_iter().collect();
    assert_eq!(observed_remove_set(&nodes, &vec![0, 1, 2, 3]), expected);
    assert_eq!(observed_remove_set(&nodes, &vec![]), BTreeSet::new());
}

#[test]
fn current_state_holds_a_reduced_value() {
    let nodes = vec![delta(1, vec![], 2), delta(2, vec![0], 5)];
    let order = topological_sort(&nodes, vec![1]).unwrap();
    let now = CurrentState { state: counter(&nodes, &order) };
    assert_eq!(now.state, 7);
}
