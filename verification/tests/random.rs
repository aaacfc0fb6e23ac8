use arbitrary::Unstructured;
use crdt::{topological_sort, DagError, RandomDAG};
use std::collections::BTreeSet;

#[test]
fn draws_become_edges() {
    let dag = RandomDAG::from_draws(vec![10, 20, 30, 40], &vec![(0, 3), (1, 2), (0, 3), (2, 3)]).unwrap();
    let nodes = dag.0.nodes();
    assert_eq!(nodes.len(), 4);
    for i in 0..4 {
        assert_eq!(nodes[i].identity, i as u64);
        assert_eq!(nodes[i].current_data, 10 * (i as i32 + 1));
    }
    assert_eq!(nodes[0].predecessors, Vec::<usize>::new());
    assert_eq!(nodes[1].predecessors, Vec::<usize>::new());
    assert_eq!(nodes[2].predecessors, vec![1]);
    assert_eq!(nodes[3].predecessors, vec![0, 2]);
}

#[test]
fn no_draws_no_edges() {
    let dag = RandomDAG::from_draws(vec!['a', 'b'], &vec![]).unwrap();
    assert_eq!(dag.0.len(), 2);
    assert_eq!(dag.0.sources(), vec![0, 1]);
    let none = RandomDAG::<u8>::from_draws(vec![], &vec![]).unwrap();
    assert_eq!(none.0.len(), 0);
}

#[test]
fn draws_that_do_not_fit_are_rejected() {
    assert_eq!(
        RandomDAG::from_draws(vec![1, 2], &vec![(1, 0)]).err(),
        Some(DagError::UnknownPredecessor)
    );
    assert_eq!(
        RandomDAG::from_draws(vec![1, 2], &vec![(1, 1)]).err(),
        Some(DagError::UnknownPredecessor)
    );
    assert_eq!(
        RandomDAG::from_draws(vec![1, 2], &vec![(0, 1), (0, 2)]).err(),
        Some(DagError::UnknownPredecessor)
    );
    assert_eq!(
        RandomDAG::<i32>::from_draws(vec![], &vec![(0, 1)]).err(),
        Some(DagError::UnknownPredecessor)
    );
}

#[test]
fn arbitrary_store_of_few_payloads_has_no_edges() {
    let bytes = [9u8, 8, 7, 6];
    let mut u = Unstructured::new(&bytes);
    let dag = RandomDAG::<i32>::arbitrary(vec![], &mut u).unwrap();
    assert_eq!(dag.0.len(), 0);
    let dag = RandomDAG::arbitrary(vec![5], &mut u).unwrap();
    assert_eq!(dag.0.len(), 1);
    assert!(dag.0.nodes()[0].predecessors.is_empty());
    // nothing was drawn
    assert_eq!(u.len(), 4);
}

#[test]
fn arbitrary_store_has_the_edges_that_the_bytes_give() {
    let bytes = [3u8, 200, 17, 1, 0, 5, 5, 2, 2, 250, 9, 1, 4, 4, 6, 0, 77];
    let len = 5usize;
    // the same draws, made by hand
    let mut by_hand = Unstructured::new(&bytes);
    let wanted = by_hand.int_in_range(0..=len * 10).unwrap();
    let mut expected: Vec<BTreeSet<usize>> = vec![BTreeSet::new(); len];
    for _ in 0..wanted {
        let index_1 = by_hand.int_in_range(0..=len - 2).unwrap();
        let index_2 = by_hand.int_in_range(index_1 + 1..=len - 1).unwrap();
        expected[index_2].insert(index_1);
    }
    assert!(wanted > 0);
    assert!(expected.iter().any(|set| set.iter().any(|p| *p != 0)));

    let mut u = Unstructured::new(&bytes);
    let dag = RandomDAG::arbitrary(vec![1, 2, 3, 4, 5], &mut u).unwrap();
    let nodes = dag.0.nodes();
    assert_eq!(nodes.len(), len);
    for i in 0..len {
        let found: BTreeSet<usize> = nodes[i].predecessors.iter().copied().collect();
        assert_eq!(found, expected[i]);
        assert_eq!(nodes[i].current_data, i as i32 + 1);
    }
    assert_eq!(u.len(), by_hand.len());
}

#[test]
fn arbitrary_store_is_replayed_whole_and_in_causal_order() {
    let mut seed = 12345u32;
    for round in 0..50usize {
        let mut bytes = Vec::new();
        for _ in 0..(round * 3 + 1) {
            seed = seed.wrapping_mul(1103515245).wrapping_add(12345);
            bytes.push((seed >> 16) as u8);
        }
        let payloads: Vec<i32> = (0..(round % 9) as i32).collect();
        let count = payloads.len();
        let mut u = Unstructured::new(&bytes);
        let dag = RandomDAG::arbitrary(payloads, &mut u).unwrap();
        let nodes = dag.0.nodes();
        let starts: Vec<usize> = (0..count).collect();
        let result = topological_sort(nodes, starts.clone()).unwrap();
        assert_eq!(result.len(), count);
        let a: BTreeSet<usize> = starts.into_iter().collect();
        let b: BTreeSet<usize> = result.iter().copied().collect();
        assert_eq!(a, b);
        for i in 0..result.len() {
            for predecessor in &nodes[result[i]].predecessors {
                assert!(result[0..i].contains(predecessor));
            }
        }
    }
}
