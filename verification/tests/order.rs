use crdt::{topological_sort, topological_sort_visit, DAGNode, DagError};
use std::collections::BTreeSet;

fn node(identity: u64, predecessors: Vec<usize>, data: i64) -> DAGNode<i64> {
    DAGNode { identity, predecessors, current_data: data }
}

fn respects(nodes: &Vec<DAGNode<i64>>, order: &Vec<usize>) -> bool {
    for i in 0..order.len() {
        for p in &nodes[order[i]].predecessors {
            if !order[0..i].contains(p) {
                return false;
            }
        }
    }
    true
}

#[test]
fn predecessor_comes_first() {
    let nodes = vec![node(1, vec![], 0), node(2, vec![0], 5)];
    assert_eq!(topological_sort(&nodes, vec![1]), Ok(vec![0, 1]));
}

#[test]
fn independent_roots_are_replayed_last_first() {
    let nodes = vec![node(1, vec![], 1), node(2, vec![], 2), node(3, vec![], 3)];
    let first = topological_sort(&nodes, vec![0, 1, 2]);
    assert_eq!(first, Ok(vec![2, 1, 0]));
    let again = topological_sort(&nodes, vec![0, 1, 2]);
    assert_eq!(first, again);
    let mut seen = first.unwrap();
    seen.sort();
    assert_eq!(seen, vec![0, 1, 2]);
}

#[test]
fn empty_start_gives_empty_order() {
    let nodes = vec![node(1, vec![], 0)];
    assert_eq!(topological_sort(&nodes, vec![]), Ok(vec![]));
    let none: Vec<DAGNode<i64>> = vec![];
    assert_eq!(topological_sort(&none, vec![]), Ok(vec![]));
}

#[test]
fn diamond_emits_shared_ancestor_once() {
    // 3 depends on 1 and 2, both depend on 0
    let nodes = vec![
        node(10, vec![], 0),
        node(11, vec![0], 1),
        node(12, vec![0], 2),
        node(13, vec![1, 2], 3),
    ];
    let order = topological_sort(&nodes, vec![3]).unwrap();
    assert_eq!(order, vec![0, 1, 2, 3]);
    assert!(respects(&nodes, &order));
}

#[test]
fn predecessors_are_visited_in_stored_order() {
    let nodes = vec![node(1, vec![], 0), node(2, vec![], 0), node(3, vec![1, 0], 0)];
    assert_eq!(topological_sort(&nodes, vec![2]), Ok(vec![1, 0, 2]));
}

#[test]
fn duplicate_starts_are_emitted_once() {
    let nodes = vec![node(1, vec![], 0), node(2, vec![0], 5)];
    assert_eq!(topological_sort(&nodes, vec![1, 0, 1, 1]), Ok(vec![0, 1]));
}

#[test]
fn start_need_not_be_a_head() {
    let nodes = vec![node(1, vec![], 0), node(2, vec![0], 5), node(3, vec![1], 7)];
    assert_eq!(topological_sort(&nodes, vec![1]), Ok(vec![0, 1]));
}

#[test]
fn only_reachable_nodes_are_emitted() {
    let nodes = vec![node(1, vec![], 0), node(2, vec![], 5), node(3, vec![1], 7)];
    assert_eq!(topological_sort(&nodes, vec![2]), Ok(vec![1, 2]));
}

#[test]
fn cycle_is_detected() {
    let nodes = vec![node(1, vec![1], 0), node(2, vec![0], 5)];
    assert_eq!(topological_sort(&nodes, vec![0]), Err(DagError::CycleDetected));
}

#[test]
fn self_loop_is_detected() {
    let nodes = vec![node(1, vec![0], 0)];
    assert_eq!(topological_sort(&nodes, vec![0]), Err(DagError::CycleDetected));
}

#[test]
fn cycle_out_of_reach_does_not_matter() {
    let nodes = vec![node(1, vec![], 0), node(2, vec![2], 5), node(3, vec![1], 5)];
    assert_eq!(topological_sort(&nodes, vec![0]), Ok(vec![0]));
}

#[test]
fn unknown_predecessor_is_reported() {
    let nodes = vec![node(1, vec![7], 0)];
    assert_eq!(topological_sort(&nodes, vec![0]), Err(DagError::UnknownPredecessor));
}

#[test]
fn unknown_start_is_reported() {
    let nodes = vec![node(1, vec![], 0)];
    assert_eq!(topological_sort(&nodes, vec![1]), Err(DagError::UnknownPredecessor));
}

#[test]
fn first_problem_on_the_way_is_reported() {
    // node 0 names a missing node first, then a node on a cycle
    let nodes = vec![node(1, vec![9, 1], 0), node(2, vec![1], 0)];
    assert_eq!(topological_sort(&nodes, vec![0]), Err(DagError::UnknownPredecessor));
    let nodes = vec![node(1, vec![1, 9], 0), node(2, vec![1], 0)];
    assert_eq!(topological_sort(&nodes, vec![0]), Err(DagError::CycleDetected));
}

#[test]
fn long_chain_needs_no_deep_recursion() {
    let count = 200_000;
    let mut nodes = vec![node(0, vec![], 1)];
    for i in 1..count {
        nodes.push(node(i as u64, vec![i - 1], 1));
    }
    let order = topological_sort(&nodes, vec![count - 1]).unwrap();
    assert_eq!(order.len(), count);
    for i in 0..count {
        assert_eq!(order[i], i);
    }
}

#[test]
fn visit_adds_to_what_was_emitted() {
    let nodes = vec![node(1, vec![], 0), node(2, vec![0], 5), node(3, vec![0], 7)];
    let mut l = Vec::new();
    let mut marked = BTreeSet::new();
    assert_eq!(topological_sort_visit(&nodes, 1, &mut l, &mut marked), Ok(()));
    assert_eq!(l, vec![0, 1]);
    assert_eq!(topological_sort_visit(&nodes, 2, &mut l, &mut marked), Ok(()));
    assert_eq!(l, vec![0, 1, 2]);
    assert_eq!(topological_sort_visit(&nodes, 0, &mut l, &mut marked), Ok(()));
    assert_eq!(l, vec![0, 1, 2]);
    let expected: BTreeSet<usize> = [0, 1, 2].into_iter().collect();
    assert_eq!(marked, expected);
}

#[test]
fn failed_visit_keeps_what_was_emitted_before_the_failure() {
    // 2 names 0, which is fine, and then 1, which lies on a cycle with 2
    let nodes = vec![node(1, vec![], 0), node(2, vec![2], 0), node(3, vec![0, 1], 0)];
    let mut l = Vec::new();
    let mut marked = BTreeSet::new();
    assert_eq!(
        topological_sort_visit(&nodes, 2, &mut l, &mut marked),
        Err(DagError::CycleDetected)
    );
    assert_eq!(l, vec![0]);
    let expected: BTreeSet<usize> = [0].into_iter().collect();
    assert_eq!(marked, expected);
}

#[test]
fn order_of_a_larger_graph_is_a_permutation_that_respects_edges() {
    // edges always lead to a lower position, as when nodes are created in order
    let count = 60usize;
    let mut nodes = Vec::new();
    for i in 0..count {
        let mut predecessors = Vec::new();
        for k in 1..4usize {
            let step = (i * 7 + k * 13) % 11 + 1;
            if i >= step && !predecessors.contains(&(i - step)) {
                predecessors.push(i - step);
            }
        }
        nodes.push(node(i as u64, predecessors, i as i64));
    }
    let starts: Vec<usize> = (0..count).collect();
    let order = topological_sort(&nodes, starts.clone()).unwrap();
    assert_eq!(order.len(), count);
    let members: BTreeSet<usize> = order.iter().copied().collect();
    let all: BTreeSet<usize> = starts.iter().copied().collect();
    assert_eq!(members, all);
    assert!(respects(&nodes, &order));
    assert_eq!(topological_sort(&nodes, starts), Ok(order));
}
