//! What holds of the reducers whatever the replay order is.

use crate::graph::{is_predecessor, is_replay_order, occurs_before};
use crate::node::{edges, DAGNode};
use crate::payload_order::{
    at_most, lemma_at_most_antisymmetric, lemma_at_most_reflexive, lemma_at_most_total,
    lemma_at_most_transitive, total_order,
};
use crate::reducers::{max_of, min_of, payloads, set_of, sum_of, AddOrRemove};
use vstd::prelude::*;
use vstd::seq_lib::{to_multiset_contains, to_multiset_len, to_multiset_remove};

verus! {

/// What stands in one of two sequences with the same elements stands in the other.
proof fn lemma_same_members<T>(a: Seq<T>, b: Seq<T>, x: T)
    requires
        a.to_multiset() == b.to_multiset(),
        a.contains(x),
    ensures
        b.contains(x),
{
    to_multiset_contains(a, x);
    to_multiset_contains(b, x);
}

/// Two sequences with the same elements still have the same elements when the
/// last element of one is taken out of both.
proof fn lemma_without_last<T>(a: Seq<T>, b: Seq<T>, j: int)
    requires
        a.to_multiset() == b.to_multiset(),
        a.len() > 0,
        0 <= j < b.len(),
        b[j] == a.last(),
    ensures
        a.drop_last().to_multiset() == b.remove(j).to_multiset(),
{
    assert(a.drop_last() =~= a.remove(a.len() - 1));
    to_multiset_remove(a, a.len() - 1);
    to_multiset_remove(b, j);
}

proof fn lemma_same_length<T>(a: Seq<T>, b: Seq<T>)
    requires
        a.to_multiset() == b.to_multiset(),
    ensures
        a.len() == b.len(),
{
    to_multiset_len(a);
    to_multiset_len(b);
}

/// Taking one element out of a history takes its delta out of the sum.
proof fn lemma_sum_remove(h: Seq<i64>, j: int)
    requires
        0 <= j < h.len(),
    ensures
        sum_of(h) == sum_of(h.remove(j)) + h[j],
    decreases h.len(),
{
    if j == h.len() - 1 {
        assert(h.remove(j) =~= h.drop_last());
    } else {
        lemma_sum_remove(h.drop_last(), j);
        assert(h.drop_last().remove(j) =~= h.remove(j).drop_last());
        assert(h.remove(j).last() == h.last());
    }
}

/// Two histories with the same deltas, each as often, have the same sum.
pub proof fn law_sum_ignores_order(a: Seq<i64>, b: Seq<i64>)
    requires
        a.to_multiset() == b.to_multiset(),
    ensures
        sum_of(a) == sum_of(b),
    decreases a.len(),
{
    lemma_same_length(a, b);
    if a.len() > 0 {
        let x = a.last();
        assert(a.contains(x)) by {
            assert(a[a.len() - 1] == x);
        }
        lemma_same_members(a, b, x);
        let j = b.index_of(x);
        lemma_without_last(a, b, j);
        law_sum_ignores_order(a.drop_last(), b.remove(j));
        lemma_sum_remove(b, j);
    }
}

/// The greatest payload stands in the history, and every payload is at most it.
pub proof fn law_max_is_greatest<T: Ord>(h: Seq<T>)
    requires
        total_order::<T>(),
        h.len() > 0,
    ensures
        max_of(h) is Some,
        h.contains(max_of(h).unwrap()),
        forall|i: int| 0 <= i < h.len() ==> at_most(#[trigger] h[i], max_of(h).unwrap()),
    decreases h.len(),
{
    let last = h.len() - 1;
    lemma_at_most_reflexive(h.last());
    if h.len() > 1 {
        let front = h.drop_last();
        law_max_is_greatest(front);
        let best = max_of(front).unwrap();
        let top = max_of(h).unwrap();
        assert(h.contains(top)) by {
            if top == h.last() {
                assert(h[last] == top);
            } else {
                let i = front.index_of(best);
                assert(h[i] == top);
            }
        }
        assert forall|i: int| 0 <= i < h.len() implies at_most(#[trigger] h[i], top) by {
            if i < last {
                assert(at_most(front[i], best));
                if at_most(best, h.last()) {
                    lemma_at_most_transitive(h[i], best, top);
                }
            } else if !at_most(best, h.last()) {
                lemma_at_most_total(best, h.last());
            }
        }
    } else {
        assert(h.drop_last().len() == 0);
        assert(max_of(h) == Some(h.last()));
        assert(h[last] == h.last());
    }
}

/// The least payload stands in the history, and it is at most every payload.
pub proof fn law_min_is_least<T: Ord>(h: Seq<T>)
    requires
        total_order::<T>(),
        h.len() > 0,
    ensures
        min_of(h) is Some,
        h.contains(min_of(h).unwrap()),
        forall|i: int| 0 <= i < h.len() ==> at_most(min_of(h).unwrap(), #[trigger] h[i]),
    decreases h.len(),
{
    let last = h.len() - 1;
    lemma_at_most_reflexive(h.last());
    if h.len() > 1 {
        let front = h.drop_last();
        law_min_is_least(front);
        let best = min_of(front).unwrap();
        let low = min_of(h).unwrap();
        assert(h.contains(low)) by {
            if low == h.last() && !at_most(best, h.last()) {
                assert(h[last] == low);
            } else {
                let i = front.index_of(best);
                assert(h[i] == low);
            }
        }
        assert forall|i: int| 0 <= i < h.len() implies at_most(low, #[trigger] h[i]) by {
            if i < last {
                assert(at_most(best, front[i]));
                if !at_most(best, h.last()) {
                    lemma_at_most_total(best, h.last());
                    lemma_at_most_transitive(low, best, h[i]);
                }
            }
        }
    } else {
        assert(h.drop_last().len() == 0);
        assert(min_of(h) == Some(h.last()));
        assert(h[last] == h.last());
    }
}

/// Two histories with the same payloads have the same greatest payload.
pub proof fn law_max_ignores_order<T: Ord>(a: Seq<T>, b: Seq<T>)
    requires
        total_order::<T>(),
        a.to_multiset() == b.to_multiset(),
    ensures
        max_of(a) == max_of(b),
{
    lemma_same_length(a, b);
    if a.len() > 0 {
        law_max_is_greatest(a);
        law_max_is_greatest(b);
        let x = max_of(a).unwrap();
        let y = max_of(b).unwrap();
        lemma_same_members(a, b, x);
        lemma_same_members(b, a, y);
        let i = b.index_of(x);
        let j = a.index_of(y);
        assert(at_most(b[i], y));
        assert(at_most(a[j], x));
        lemma_at_most_antisymmetric(x, y);
    }
}

/// Two histories with the same payloads have the same least payload.
pub proof fn law_min_ignores_order<T: Ord>(a: Seq<T>, b: Seq<T>)
    requires
        total_order::<T>(),
        a.to_multiset() == b.to_multiset(),
    ensures
        min_of(a) == min_of(b),
{
    lemma_same_length(a, b);
    if a.len() > 0 {
        law_min_is_least(a);
        law_min_is_least(b);
        let x = min_of(a).unwrap();
        let y = min_of(b).unwrap();
        lemma_same_members(a, b, x);
        lemma_same_members(b, a, y);
        let i = b.index_of(x);
        let j = a.index_of(y);
        assert(at_most(y, b[i]));
        assert(at_most(x, a[j]));
        lemma_at_most_antisymmetric(x, y);
    }
}

/// Two replay orders of the same nodes give the same payloads, each as often.
pub proof fn law_payloads_ignore_order<T>(
    nodes: Seq<DAGNode<T>>,
    first: Seq<usize>,
    second: Seq<usize>,
)
    requires
        first.to_multiset() == second.to_multiset(),
    ensures
        payloads(nodes, first).to_multiset() == payloads(nodes, second).to_multiset(),
    decreases first.len(),
{
    lemma_same_length(first, second);
    let a = payloads(nodes, first);
    let b = payloads(nodes, second);
    if first.len() == 0 {
        assert(a =~= b);
    } else {
        let n = first.last();
        assert(first.contains(n)) by {
            assert(first[first.len() - 1] == n);
        }
        lemma_same_members(first, second, n);
        let j = second.index_of(n);
        lemma_without_last(first, second, j);
        law_payloads_ignore_order(nodes, first.drop_last(), second.remove(j));
        let last = a.len() - 1;
        assert(payloads(nodes, first.drop_last()) =~= a.remove(last));
        assert(payloads(nodes, second.remove(j)) =~= b.remove(j));
        assert(a[last] == b[j]);
        to_multiset_remove(a, last);
        to_multiset_remove(b, j);
        to_multiset_contains(a, a[last]);
        to_multiset_contains(b, b[j]);
        assert(a.to_multiset() =~= a.to_multiset().remove(a[last]).insert(a[last]));
        assert(b.to_multiset() =~= b.to_multiset().remove(b[j]).insert(b[j]));
    }
}

/// The counter does not depend on the order in which concurrent operations are
/// replayed: two orders of the same nodes give the same sum.
pub proof fn law_counter_ignores_replay_order(
    nodes: Seq<DAGNode<i64>>,
    first: Seq<usize>,
    second: Seq<usize>,
)
    requires
        first.to_multiset() == second.to_multiset(),
    ensures
        sum_of(payloads(nodes, first)) == sum_of(payloads(nodes, second)),
{
    law_payloads_ignore_order(nodes, first, second);
    law_sum_ignores_order(payloads(nodes, first), payloads(nodes, second));
}

/// The maximum and the minimum do not depend on the order in which concurrent
/// operations are replayed.
pub proof fn law_extremes_ignore_replay_order<T: Ord>(
    nodes: Seq<DAGNode<T>>,
    first: Seq<usize>,
    second: Seq<usize>,
)
    requires
        total_order::<T>(),
        first.to_multiset() == second.to_multiset(),
    ensures
        max_of(payloads(nodes, first)) == max_of(payloads(nodes, second)),
        min_of(payloads(nodes, first)) == min_of(payloads(nodes, second)),
{
    law_payloads_ignore_order(nodes, first, second);
    law_max_ignores_order(payloads(nodes, first), payloads(nodes, second));
    law_min_ignores_order(payloads(nodes, first), payloads(nodes, second));
}

/// The value that an operation adds or removes.
pub open spec fn subject<T>(op: AddOrRemove<T>) -> T {
    match op {
        AddOrRemove::Add(v) => v,
        AddOrRemove::Remove(v) => v,
    }
}

/// Among the operations on one value the last one decides whether the value is
/// in the set.
pub proof fn law_last_operation_decides<T>(h: Seq<AddOrRemove<T>>, i: int)
    requires
        0 <= i < h.len(),
        forall|j: int| i < j < h.len() ==> subject(#[trigger] h[j]) != subject(h[i]),
    ensures
        set_of(h).contains(subject(h[i])) <==> h[i] is Add,
    decreases h.len(),
{
    if i < h.len() - 1 {
        let front = h.drop_last();
        assert(subject(h[h.len() - 1]) != subject(h[i]));
        assert forall|j: int| i < j < front.len() implies subject(#[trigger] front[j]) != subject(
            front[i],
        ) by {
            assert(front[j] == h[j]);
        }
        law_last_operation_decides(front, i);
    }
}

/// Where the only two operations on a value are causally ordered, the later
/// one decides in every replay order: after addition then removal the value is
/// not in the set, after removal then addition it is.
pub proof fn law_causal_order_decides<T>(
    nodes: Seq<DAGNode<AddOrRemove<T>>>,
    order: Seq<usize>,
    earlier: usize,
    later: usize,
)
    requires
        is_replay_order(edges(nodes), order),
        order.contains(later),
        is_predecessor(edges(nodes), later, earlier),
        subject(nodes[earlier as int].current_data) == subject(nodes[later as int].current_data),
        forall|k: int|
            0 <= k < order.len() && order[k] != earlier && order[k] != later ==> subject(
                nodes[#[trigger] order[k] as int].current_data,
            ) != subject(nodes[later as int].current_data),
    ensures
        set_of(payloads(nodes, order)).contains(subject(nodes[later as int].current_data))
            <==> nodes[later as int].current_data is Add,
{
    let h = payloads(nodes, order);
    let i = order.index_of(later);
    assert(is_predecessor(edges(nodes), order[i], earlier));
    assert(occurs_before(order, earlier, i));
    let e = choose|e: int| 0 <= e < i && e < order.len() && #[trigger] order[e] == earlier;
    assert forall|j: int| i < j < h.len() implies subject(#[trigger] h[j]) != subject(h[i]) by {
        assert(order[j] != later);
        assert(order[j] != earlier);
    }
    law_last_operation_decides(h, i);
}

} // verus!
