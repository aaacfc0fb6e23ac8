//! Arbitrary stores, for tests that want many shapes of history.

use crate::graph::{ascending, lemma_ordered_is_acyclic, ordered};
use crate::node::{edges, DAGNode, DagError};
use crate::store::{insert_sorted, NodeStore};
use vstd::pervasive::unreached;
use vstd::prelude::*;

verus! {

/// `arbitrary::Unstructured`, the source of bytes that the draws are taken
/// from. Nothing is known here of the bytes it holds.
#[verifier::external_type_specification]
#[verifier::external_body]
pub struct ExUnstructured<'a>(arbitrary::Unstructured<'a>);

/// `arbitrary::Error`, the failure of a draw. Nothing is known here of its
/// variant.
#[verifier::external_type_specification]
#[verifier::external_body]
pub struct ExDrawFailure(arbitrary::Error);

/// Why a draw from the unstructured bytes failed.
#[derive(Clone, Copy, Debug, PartialEq, Eq, Structural)]
pub enum DrawError {
    /// A choice was asked for among no choices.
    EmptyChoose,
    /// The bytes did not suffice.
    NotEnoughData,
    /// The bytes do not have the form that was asked for.
    IncorrectFormat,
    /// A failure that this library has no name for.
    Other,
}

/// `arbitrary::Unstructured::int_in_range` on `low..=high`. Believed, not
/// proved: a number that is drawn lies in the range. Which number is drawn,
/// and whether the draw succeeds, is left to the bytes. The outside function
/// panics on an empty range, which the precondition leaves out.
#[verifier::external_body]
fn int_in_range(u: &mut arbitrary::Unstructured<'_>, low: usize, high: usize) -> (r: Result<
    usize,
    arbitrary::Error,
>)
    requires
        low <= high,
    ensures
        r matches Ok(v) ==> low <= v <= high,
{
    u.int_in_range(low..=high)
}

/// The variant of an `arbitrary::Error`, under this library's names. Nothing
/// is claimed of the result.
#[verifier::external_body]
fn draw_error(e: arbitrary::Error) -> DrawError {
    match e {
        arbitrary::Error::EmptyChoose => DrawError::EmptyChoose,
        arbitrary::Error::NotEnoughData => DrawError::NotEnoughData,
        arbitrary::Error::IncorrectFormat => DrawError::IncorrectFormat,
        _ => DrawError::Other,
    }
}

/// A store of arbitrary shape.
#[derive(Debug)]
pub struct RandomDAG<T>(pub NodeStore<T>);

/// One of the draws makes `p` a predecessor of `n`.
pub open spec fn drawn(draws: Seq<(usize, usize)>, p: usize, n: int) -> bool {
    exists|d: int| 0 <= d < draws.len() && (#[trigger] draws[d]).0 == p && draws[d].1 == n
}

/// Every draw names a node of the store and, as its predecessor, a node that
/// stands before it.
pub open spec fn draws_fit(draws: Seq<(usize, usize)>, count: nat) -> bool {
    forall|d: int| 0 <= d < draws.len() ==> (#[trigger] draws[d]).0 < draws[d].1 < count
}

/// The store `d` has the payloads `payloads`, in their order, each under its
/// position as identity, and the edges `draws`.
pub open spec fn built_from<T>(
    d: RandomDAG<T>,
    payloads: Seq<T>,
    draws: Seq<(usize, usize)>,
) -> bool {
    &&& d.0.wf()
    &&& ordered(edges(d.0.arena()))
    &&& d.0.arena().len() == payloads.len()
    &&& forall|i: int|
        0 <= i < payloads.len() ==> {
            &&& (#[trigger] d.0.arena()[i]).identity == i
            &&& d.0.arena()[i].current_data == payloads[i]
            &&& ascending(d.0.arena()[i].predecessors@)
            &&& forall|p: usize| d.0.arena()[i].predecessors@.contains(p) <==> drawn(draws, p, i)
        }
}

/// The store `d` has the payloads `payloads` and edges that fit them.
pub open spec fn built_with<T>(d: RandomDAG<T>, payloads: Seq<T>) -> bool {
    exists|draws: Seq<(usize, usize)>|
        draws_fit(draws, payloads.len()) && #[trigger] built_from(d, payloads, draws)
}

impl<T> RandomDAG<T> {
    /// The store with one node for each payload, in their order, in which the
    /// draw `(p, n)` makes the node at `p` a predecessor of the node at `n`.
    ///
    /// Fails with `UnknownPredecessor` if a draw names a position without a
    /// node, or a predecessor that does not stand before its node.
    pub fn from_draws(payloads: Vec<T>, draws: &Vec<(usize, usize)>) -> (r: Result<
        RandomDAG<T>,
        DagError,
    >)
        ensures
            r is Ok <==> draws_fit(draws@, payloads.len() as nat),
            match r {
                Ok(d) => built_from(d, payloads@, draws@),
                Err(e) => e == DagError::UnknownPredecessor,
            },
    {
        let count = payloads.len();
        let mut lists: Vec<Vec<usize>> = Vec::new();
        let mut i: usize = 0;
        while i < count
            invariant
                i <= count,
                lists.len() == i,
                forall|n: int| 0 <= n < i ==> (#[trigger] lists[n])@.len() == 0,
            decreases count - i,
        {
            lists.push(Vec::new());
            i += 1;
        }
        let mut d: usize = 0;
        while d < draws.len()
            invariant
                d <= draws.len(),
                count == payloads.len(),
                lists.len() == count,
                draws_fit(draws@.take(d as int), count as nat),
                forall|n: int| 0 <= n < count ==> ascending((#[trigger] lists[n])@),
                forall|n: int, p: usize|
                    0 <= n < count ==> (#[trigger] lists[n]@.contains(p) <==> drawn(
                        draws@.take(d as int),
                        p,
                        n,
                    )),
            decreases draws.len() - d,
        {
            let (p, n) = draws[d];
            let ghost seen = draws@.take(d as int);
            let ghost more = draws@.take(d + 1);
            assert(more =~= seen.push((p, n)));
            if !(p < n && n < count) {
                assert(!draws_fit(draws@, count as nat));
                return Err(DagError::UnknownPredecessor);
            }
            let ghost before = lists@;
            insert_sorted(&mut lists[n], p);
            proof {
                assert forall|m: int| 0 <= m < count implies ascending((#[trigger] lists[m])@) by {
                    if m != n {
                        assert(lists[m] == before[m]);
                    }
                }
                assert forall|m: int, q: usize| 0 <= m < count implies (#[trigger] lists[m]@.contains(
                    q,
                ) <==> drawn(more, q, m)) by {
                    assert(before[m]@.contains(q) <==> drawn(seen, q, m));
                    if m == n {
                        assert(lists[m]@.to_set().contains(q) <==> before[m]@.to_set().insert(
                            p,
                        ).contains(q));
                    } else {
                        assert(lists[m] == before[m]);
                    }
                    if drawn(seen, q, m) {
                        let x = choose|x: int|
                            0 <= x < seen.len() && (#[trigger] seen[x]).0 == q && seen[x].1 == m;
                        assert(more[x] == seen[x]);
                    }
                    if drawn(more, q, m) {
                        let x = choose|x: int|
                            0 <= x < more.len() && (#[trigger] more[x]).0 == q && more[x].1 == m;
                        if x < d {
                            assert(seen[x] == more[x]);
                        }
                    }
                    if m == n && q == p {
                        assert(more[d as int].0 == q && more[d as int].1 == m);
                    }
                }
            }
            d += 1;
        }
        assert(draws@.take(d as int) =~= draws@);
        // the nodes, last one first
        let ghost given = payloads@;
        let ghost edges_of = lists@;
        let mut payloads = payloads;
        let mut reversed: Vec<DAGNode<T>> = Vec::new();
        while payloads.len() > 0
            invariant
                payloads.len() == lists.len(),
                payloads.len() + reversed.len() == count,
                count == given.len(),
                count == edges_of.len(),
                payloads@ == given.take(payloads.len() as int),
                lists@ == edges_of.take(lists.len() as int),
                forall|k: int|
                    0 <= k < reversed.len() ==> {
                        &&& (#[trigger] reversed[k]).identity == count - 1 - k
                        &&& reversed[k].current_data == given[count - 1 - k]
                        &&& reversed[k].predecessors == edges_of[count - 1 - k]
                    },
            decreases payloads.len(),
        {
            let payload = payloads.pop().unwrap();
            let predecessors = lists.pop().unwrap();
            let identity = payloads.len() as u64;
            reversed.push(DAGNode { identity, predecessors, current_data: payload });
            assert(payloads@ =~= given.take(payloads.len() as int));
            assert(lists@ =~= edges_of.take(lists.len() as int));
        }
        let mut nodes: Vec<DAGNode<T>> = Vec::new();
        while reversed.len() > 0
            invariant
                reversed.len() + nodes.len() == count,
                count == given.len(),
                count == edges_of.len(),
                forall|k: int|
                    0 <= k < nodes.len() ==> {
                        &&& (#[trigger] nodes[k]).identity == k
                        &&& nodes[k].current_data == given[k]
                        &&& nodes[k].predecessors == edges_of[k]
                    },
                forall|k: int|
                    0 <= k < reversed.len() ==> {
                        &&& (#[trigger] reversed[k]).identity == count - 1 - k
                        &&& reversed[k].current_data == given[count - 1 - k]
                        &&& reversed[k].predecessors == edges_of[count - 1 - k]
                    },
            decreases reversed.len(),
        {
            let ghost top = reversed.len() - 1;
            assert(reversed[top].identity == count - 1 - top);
            let node = reversed.pop().unwrap();
            nodes.push(node);
        }
        proof {
            let g = edges(nodes@);
            assert forall|n: int, k: int| 0 <= n < g.len() && 0 <= k < g[n].len() implies (
            #[trigger] g[n][k]) < n by {
                let p = nodes[n].predecessors@[k];
                assert(edges_of[n]@.contains(p));
                assert(drawn(draws@, p, n));
            }
            lemma_ordered_is_acyclic(g);
            assert forall|a: int, b: int|
                0 <= a < nodes.len() && 0 <= b < nodes.len() && a != b implies #[trigger] nodes[a].identity
                != #[trigger] nodes[b].identity by {}
        }
        Ok(RandomDAG(NodeStore::from_nodes(nodes)))
    }

    /// A store with the given payloads whose edges are drawn from `u`: up to
    /// ten draws for each node, each from a node to a node that stands before
    /// it, so that the store has no cycle whatever is drawn.
    pub fn arbitrary(payloads: Vec<T>, u: &mut arbitrary::Unstructured<'_>) -> (r: Result<
        RandomDAG<T>,
        DrawError,
    >)
        ensures
            payloads.len() <= 1 ==> r is Ok,
            r matches Ok(d) ==> built_with(d, payloads@),
    {
        let len = payloads.len();
        let mut draws: Vec<(usize, usize)> = Vec::new();
        if len > 1 {
            let most: usize = if len <= usize::MAX / 10 {
                len * 10
            } else {
                usize::MAX
            };
            let wanted = match int_in_range(u, 0, most) {
                Ok(v) => v,
                Err(e) => {
                    return Err(draw_error(e));
                },
            };
            let mut i: usize = 0;
            while i < wanted
                invariant
                    len == payloads.len(),
                    len > 1,
                    draws_fit(draws@, len as nat),
                decreases wanted - i,
            {
                let index_1 = match int_in_range(u, 0, len - 2) {
                    Ok(v) => v,
                    Err(e) => {
                        return Err(draw_error(e));
                    },
                };
                let index_2 = match int_in_range(u, index_1 + 1, len - 1) {
                    Ok(v) => v,
                    Err(e) => {
                        return Err(draw_error(e));
                    },
                };
                draws.push((index_1, index_2));
                i += 1;
            }
        }
        let ghost given = payloads@;
        assert(draws_fit(draws@, len as nat));
        match RandomDAG::from_draws(payloads, &draws) {
            Ok(d) => {
                assert(draws_fit(draws@, given.len()) && built_from(d, given, draws@));
                Ok(d)
            },
            Err(_) => unreached(),
        }
    }
}

} // verus!
