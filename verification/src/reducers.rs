//! Folding a replay order into the current value of the replicated object.

use crate::node::DAGNode;
use crate::payload_order::{at_most, exceeds, total_order};
use std::collections::BTreeSet;
use vstd::prelude::*;

verus! {

broadcast use vstd::std_specs::btree::group_btree_axioms;

/// An operation on an observed-remove set.
#[derive(Debug, PartialEq, Eq)]
pub enum AddOrRemove<T> {
    /// Puts the value into the set.
    Add(T),
    /// Takes the value out of the set, if it is there.
    Remove(T),
}

impl<T: Copy> Clone for AddOrRemove<T> {
    fn clone(&self) -> (r: Self)
        ensures
            r == *self,
    {
        *self
    }
}

impl<T: Copy> Copy for AddOrRemove<T> {

}

/// The value of a replicated object after its history was folded.
#[derive(Debug)]
pub struct CurrentState<T> {
    pub state: T,
}

/// The payloads of the nodes of `order`, in that order.
pub open spec fn payloads<T>(nodes: Seq<DAGNode<T>>, order: Seq<usize>) -> Seq<T> {
    Seq::new(order.len(), |k: int| nodes[order[k] as int].current_data)
}

/// Every node of `order` stands in the arena.
pub open spec fn within<T>(nodes: Seq<DAGNode<T>>, order: Seq<usize>) -> bool {
    forall|k: int| 0 <= k < order.len() ==> (#[trigger] order[k]) < nodes.len()
}

/// The sum of the deltas of a history.
pub open spec fn sum_of(h: Seq<i64>) -> int
    decreases h.len(),
{
    if h.len() == 0 {
        0
    } else {
        sum_of(h.drop_last()) + h.last()
    }
}

/// The greatest payload of a history, `None` if it is empty.
pub open spec fn max_of<T: Ord>(h: Seq<T>) -> Option<T>
    decreases h.len(),
{
    if h.len() == 0 {
        None
    } else {
        match max_of(h.drop_last()) {
            None => Some(h.last()),
            Some(best) => if at_most(best, h.last()) {
                Some(h.last())
            } else {
                Some(best)
            },
        }
    }
}

/// The least payload of a history, `None` if it is empty.
pub open spec fn min_of<T: Ord>(h: Seq<T>) -> Option<T>
    decreases h.len(),
{
    if h.len() == 0 {
        None
    } else {
        match min_of(h.drop_last()) {
            None => Some(h.last()),
            Some(best) => if at_most(best, h.last()) {
                Some(best)
            } else {
                Some(h.last())
            },
        }
    }
}

/// The set that a history of additions and removals leaves: each operation
/// applied in turn to the set left by those before it.
pub open spec fn set_of<T>(h: Seq<AddOrRemove<T>>) -> Set<T>
    decreases h.len(),
{
    if h.len() == 0 {
        Set::empty()
    } else {
        match h.last() {
            AddOrRemove::Add(v) => set_of(h.drop_last()).insert(v),
            AddOrRemove::Remove(v) => set_of(h.drop_last()).remove(v),
        }
    }
}

proof fn lemma_take_step<T>(h: Seq<T>, i: int)
    requires
        0 <= i < h.len(),
    ensures
        h.take(i + 1).drop_last() == h.take(i),
        h.take(i + 1).last() == h[i],
        h.take(h.len() as int) == h,
{
    assert(h.take(i + 1).drop_last() =~= h.take(i));
    assert(h.take(h.len() as int) =~= h);
}

proof fn lemma_sum_bound(h: Seq<i64>)
    ensures
        -0x8000_0000_0000_0000 * h.len() <= sum_of(h) <= 0x8000_0000_0000_0000 * h.len(),
    decreases h.len(),
{
    if h.len() > 0 {
        lemma_sum_bound(h.drop_last());
    }
}

/// The greatest payload among the nodes of `order`, `None` if there is none.
pub fn max<T: Ord + Copy>(nodes: &Vec<DAGNode<T>>, order: &Vec<usize>) -> (r: Option<T>)
    requires
        within(nodes@, order@),
    ensures
        total_order::<T>() ==> r == max_of(payloads(nodes@, order@)),
        r is None <==> order.len() == 0,
{
    let ghost h = payloads(nodes@, order@);
    let mut best: Option<T> = None;
    let mut i: usize = 0;
    while i < order.len()
        invariant
            i <= order.len(),
            within(nodes@, order@),
            h == payloads(nodes@, order@),
            total_order::<T>() ==> best == max_of(h.take(i as int)),
            best is None <==> i == 0,
        decreases order.len() - i,
    {
        let x: T = nodes[order[i]].current_data;
        proof {
            lemma_take_step(h, i as int);
        }
        best =
        match best {
            None => Some(x),
            Some(b) => if exceeds(&b, &x) {
                Some(b)
            } else {
                Some(x)
            },
        };
        i += 1;
    }
    proof {
        assert(h.take(h.len() as int) =~= h);
    }
    best
}

/// The least payload among the nodes of `order`, `None` if there is none.
pub fn min<T: Ord + Copy>(nodes: &Vec<DAGNode<T>>, order: &Vec<usize>) -> (r: Option<T>)
    requires
        within(nodes@, order@),
    ensures
        total_order::<T>() ==> r == min_of(payloads(nodes@, order@)),
        r is None <==> order.len() == 0,
{
    let ghost h = payloads(nodes@, order@);
    let mut best: Option<T> = None;
    let mut i: usize = 0;
    while i < order.len()
        invariant
            i <= order.len(),
            within(nodes@, order@),
            h == payloads(nodes@, order@),
            total_order::<T>() ==> best == min_of(h.take(i as int)),
            best is None <==> i == 0,
        decreases order.len() - i,
    {
        let x: T = nodes[order[i]].current_data;
        proof {
            lemma_take_step(h, i as int);
        }
        best =
        match best {
            None => Some(x),
            Some(b) => if exceeds(&b, &x) {
                Some(x)
            } else {
                Some(b)
            },
        };
        i += 1;
    }
    proof {
        assert(h.take(h.len() as int) =~= h);
    }
    best
}

/// The sum of the deltas of the nodes of `order`.
///
/// The sum itself has to fit the result; what is summed up on the way need not.
pub fn counter(nodes: &Vec<DAGNode<i64>>, order: &Vec<usize>) -> (r: i64)
    requires
        within(nodes@, order@),
        i64::MIN <= sum_of(payloads(nodes@, order@)) <= i64::MAX,
    ensures
        r == sum_of(payloads(nodes@, order@)),
{
    let ghost h = payloads(nodes@, order@);
    let mut total: i128 = 0;
    let mut i: usize = 0;
    while i < order.len()
        invariant
            i <= order.len(),
            within(nodes@, order@),
            h == payloads(nodes@, order@),
            total == sum_of(h.take(i as int)),
        decreases order.len() - i,
    {
        let x: i64 = nodes[order[i]].current_data;
        proof {
            lemma_take_step(h, i as int);
            lemma_sum_bound(h.take(i as int));
        }
        total = total + x as i128;
        i += 1;
    }
    proof {
        assert(h.take(h.len() as int) =~= h);
    }
    total as i64
}

/// The set left by the additions and removals of the nodes of `order`, applied
/// in that order: among operations on one value the last one decides.
pub fn observed_remove_set<T: Ord + Copy>(
    nodes: &Vec<DAGNode<AddOrRemove<T>>>,
    order: &Vec<usize>,
) -> (r: BTreeSet<T>)
    requires
        within(nodes@, order@),
    ensures
        total_order::<T>() ==> r@ == set_of(payloads(nodes@, order@)),
{
    let ghost h = payloads(nodes@, order@);
    let mut result: BTreeSet<T> = BTreeSet::new();
    let mut i: usize = 0;
    while i < order.len()
        invariant
            i <= order.len(),
            within(nodes@, order@),
            h == payloads(nodes@, order@),
            total_order::<T>() ==> result@ == set_of(h.take(i as int)),
        decreases order.len() - i,
    {
        proof {
            lemma_take_step(h, i as int);
        }
        match nodes[order[i]].current_data {
            AddOrRemove::Add(x) => {
                result.insert(x);
            },
            AddOrRemove::Remove(x) => {
                result.remove(&x);
            },
        }
        i += 1;
    }
    proof {
        assert(h.take(h.len() as int) =~= h);
    }
    result
}

} // verus!
