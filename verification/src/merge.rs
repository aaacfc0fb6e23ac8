//! Reconciling the stores of two replicas.
//!
//! Operations are matched by identity: whoever creates an operation gives it
//! an identity that no other operation of any replica has, and the identity
//! travels with the operation. An operation that both replicas hold is kept
//! once, with the causal edges that either of them recorded. One identity with
//! two payloads is a collision, and causal edges that run both ways between
//! two operations are a contradiction: the merge reports either and picks no
//! side.

use crate::graph::{acyclic, ascending, closed, is_cycle, is_predecessor, linked};
use crate::node::{edges, DAGNode, DagError};
use crate::order::topological_sort;
use crate::order_laws::law_whole_arena;
use crate::payload_order::{exact_equality, same};
use crate::store::{
    copy_list, distinct_identities, history, holds, insert_sorted, lemma_position, named,
    position, well_formed, NodeStore, Operation,
};
use vstd::prelude::*;

verus! {

/// The two histories give the same payload to every operation that both hold.
pub open spec fn compatible<T>(a: Map<u64, Operation<T>>, b: Map<u64, Operation<T>>) -> bool {
    forall|id: u64|
        a.dom().contains(id) && b.dom().contains(id) ==> (#[trigger] a[id]).payload == (
        #[trigger] b[id]).payload
}

/// The operations of both histories; one that both hold has the predecessors
/// that either records.
pub open spec fn union<T>(a: Map<u64, Operation<T>>, b: Map<u64, Operation<T>>) -> Map<
    u64,
    Operation<T>,
> {
    Map::new(
        |id: u64| a.dom().contains(id) || b.dom().contains(id),
        |id: u64|
            if a.dom().contains(id) && b.dom().contains(id) {
                Operation {
                    payload: a[id].payload,
                    predecessors: a[id].predecessors.union(b[id].predecessors),
                }
            } else if a.dom().contains(id) {
                a[id]
            } else {
                b[id]
            },
    )
}

/// The operation `a` of the history depends on the operation `b`.
pub open spec fn depends<T>(m: Map<u64, Operation<T>>, a: u64, b: u64) -> bool {
    m.dom().contains(a) && m[a].predecessors.contains(b)
}

/// The operation at position `i` of `p` depends on the next one.
pub open spec fn depends_on_next<T>(m: Map<u64, Operation<T>>, p: Seq<u64>, i: int) -> bool {
    depends(m, p[i], p[i + 1])
}

/// `p` follows causal dependencies from an operation back to itself.
pub open spec fn is_causal_cycle<T>(m: Map<u64, Operation<T>>, p: Seq<u64>) -> bool {
    &&& p.len() >= 2
    &&& p[0] == p.last()
    &&& forall|i: int| 0 <= i < p.len() - 1 ==> #[trigger] depends_on_next(m, p, i)
}

/// No operation of the history depends on itself: the replicas that recorded
/// it agree on the causal direction between any two operations.
pub open spec fn consistent<T>(m: Map<u64, Operation<T>>) -> bool {
    forall|p: Seq<u64>| !#[trigger] is_causal_cycle(m, p)
}

/// An arena has a cycle exactly when the history that it records has one.
pub proof fn lemma_consistent_iff_acyclic<T>(nodes: Seq<DAGNode<T>>)
    requires
        closed(edges(nodes)),
        distinct_identities(nodes),
        nodes.len() <= usize::MAX,
    ensures
        consistent(history(nodes)) <==> acyclic(edges(nodes)),
{
    let g = edges(nodes);
    let m = history(nodes);
    if !acyclic(g) {
        let q = choose|q: Seq<usize>| #[trigger] is_cycle(g, q);
        assert forall|i: int| 0 <= i < q.len() implies q[i] < nodes.len() by {
            let at = if i == 0 {
                q.len() - 1
            } else {
                i
            };
            assert(linked(g, q, at - 1));
            let list = g[q[at - 1] as int];
            let k = choose|k: int| 0 <= k < list.len() && list[k] == q[at];
            assert(g[q[at - 1] as int][k] < g.len());
        }
        let p = Seq::new(q.len(), |i: int| nodes[q[i] as int].identity);
        assert forall|i: int| 0 <= i < p.len() - 1 implies #[trigger] depends_on_next(m, p, i) by {
            assert(linked(g, q, i));
            lemma_position(nodes, q[i] as int);
            let list = g[q[i] as int];
            let k = choose|k: int| 0 <= k < list.len() && list[k] == q[i + 1];
            assert(nodes[nodes[q[i] as int].predecessors@[k] as int].identity == p[i + 1]);
        }
        assert(is_causal_cycle(m, p));
    }
    if !consistent(m) {
        let p = choose|p: Seq<u64>| #[trigger] is_causal_cycle(m, p);
        assert forall|i: int| 0 <= i < p.len() implies holds(nodes, #[trigger] p[i]) by {
            if i < p.len() - 1 {
                assert(depends_on_next(m, p, i));
            } else {
                assert(depends_on_next(m, p, 0));
            }
        }
        let q = Seq::new(p.len(), |i: int| position(nodes, p[i]) as usize);
        assert forall|i: int| 0 <= i < q.len() - 1 implies #[trigger] linked(g, q, i) by {
            assert(depends_on_next(m, p, i));
            assert(holds(nodes, p[i]) && holds(nodes, p[i + 1]));
            let n = position(nodes, p[i]);
            let k = choose|k: int|
                0 <= k < nodes[n].predecessors@.len() && nodes[#[trigger] nodes[n].predecessors@[k] as int].identity
                    == p[i + 1];
            let x = nodes[n].predecessors@[k];
            assert(g[n][k] == x);
            assert(x < g.len());
            lemma_position(nodes, x as int);
            assert(position(nodes, p[i + 1]) == x);
            assert(q[i] == n && q[i + 1] == x);
            assert(g[n].contains(x));
            assert(is_predecessor(g, q[i], q[i + 1]));
        }
        assert(is_cycle(g, q));
    }
}

/// Merging a history with itself changes nothing.
pub proof fn law_merge_idempotent<T>(m: Map<u64, Operation<T>>)
    ensures
        compatible(m, m),
        union(m, m) == m,
{
    assert forall|id: u64| m.dom().contains(id) implies #[trigger] union(m, m)[id] == m[id] by {
        assert(m[id].predecessors.union(m[id].predecessors) =~= m[id].predecessors);
    }
    assert(union(m, m) =~= m);
}

/// Merging the store of a replica with itself succeeds and changes nothing.
pub proof fn law_merge_of_store_with_itself<T>(store: NodeStore<T>)
    requires
        store.wf(),
    ensures
        compatible(store@, store@),
        consistent(union(store@, store@)),
        union(store@, store@) == store@,
{
    law_merge_idempotent(store@);
    store.lemma_arena_fits();
    lemma_consistent_iff_acyclic(store.arena());
}

/// Merging does not depend on which history is taken first: the two are
/// compatible either way or neither way, and if they are, both ways give the
/// same operations with the same predecessors, with the same cycles if any.
pub proof fn law_merge_commutative<T>(a: Map<u64, Operation<T>>, b: Map<u64, Operation<T>>)
    ensures
        compatible(a, b) == compatible(b, a),
        compatible(a, b) ==> union(a, b) == union(b, a),
        compatible(a, b) ==> consistent(union(a, b)) == consistent(union(b, a)),
{
    if compatible(a, b) {
        assert forall|id: u64| union(a, b).dom().contains(id) implies #[trigger] union(a, b)[id]
            == union(b, a)[id] by {
            if a.dom().contains(id) && b.dom().contains(id) {
                assert(a[id].payload == b[id].payload);
                assert(a[id].predecessors.union(b[id].predecessors) =~= b[id].predecessors.union(
                    a[id].predecessors,
                ));
            }
        }
        assert(union(a, b) =~= union(b, a));
    }
}

/// The nodes of `b` whose identity no node of `a` has, in the order of `b`.
pub open spec fn newcomers<T>(a: Seq<DAGNode<T>>, b: Seq<DAGNode<T>>) -> Seq<DAGNode<T>>
    decreases b.len(),
{
    if b.len() == 0 {
        Seq::empty()
    } else if holds(a, b.last().identity) {
        newcomers(a, b.drop_last())
    } else {
        newcomers(a, b.drop_last()).push(b.last())
    }
}

/// The newcomers among the first nodes of `b` stay where they are when more
/// nodes of `b` are looked at.
proof fn lemma_newcomers_stay<T>(a: Seq<DAGNode<T>>, b: Seq<DAGNode<T>>, k: int, m: int)
    requires
        0 <= k <= m <= b.len(),
    ensures
        newcomers(a, b.take(k)).len() <= newcomers(a, b.take(m)).len(),
        forall|i: int|
            0 <= i < newcomers(a, b.take(k)).len() ==> newcomers(a, b.take(m))[i] == newcomers(
                a,
                b.take(k),
            )[i],
        k < m && !holds(a, b[k].identity) ==> newcomers(a, b.take(k)).len() < newcomers(
            a,
            b.take(m),
        ).len() && newcomers(a, b.take(m))[newcomers(a, b.take(k)).len() as int] == b[k],
    decreases m - k,
{
    if k < m {
        assert(b.take(m).drop_last() =~= b.take(m - 1));
        assert(b.take(m).last() == b[m - 1]);
        lemma_newcomers_stay(a, b, k, m - 1);
    }
}

/// Where the remote nodes that the local arena does not hold stand in the
/// union: behind the local nodes, in their own order.
spec fn in_line<T>(
    a: Seq<DAGNode<T>>,
    b: Seq<DAGNode<T>>,
    to: Seq<usize>,
    from: Seq<Option<usize>>,
    done: int,
) -> bool {
    &&& from.len() == a.len() + newcomers(a, b.take(done)).len()
    &&& forall|k: int|
        0 <= k < done && (#[trigger] to[k]) >= a.len() ==> to[k] == a.len() + newcomers(
            a,
            b.take(k),
        ).len()
}

/// Where the first `done` nodes of the remote arena `b` stand in the union:
/// `to` gives the place of each, `from` the remote node at each place. A
/// remote node stands at the place of the local node with its identity, or
/// at a place of its own behind the local nodes.
spec fn placed<T>(
    a: Seq<DAGNode<T>>,
    b: Seq<DAGNode<T>>,
    to: Seq<usize>,
    from: Seq<Option<usize>>,
    done: int,
) -> bool {
    &&& to.len() == done <= usize::MAX
    &&& a.len() <= from.len() <= a.len() + done
    &&& forall|k: int|
        0 <= k < done ==> (#[trigger] to[k]) < from.len() && from[to[k] as int] == Some(k as usize)
    &&& forall|k: int|
        0 <= k < done ==> if (#[trigger] to[k]) < a.len() {
            a[to[k] as int].identity == b[k].identity
        } else {
            !holds(a, b[k].identity)
        }
    &&& forall|t: int|
        0 <= t < from.len() && (#[trigger] from[t]) is Some ==> from[t].unwrap() < done
            && to[from[t].unwrap() as int] == t
    &&& forall|t: int| 0 <= t < from.len() && (#[trigger] from[t]) is None ==> t < a.len()
    &&& forall|t: int, k: int|
        0 <= t < from.len() && 0 <= k < done && (#[trigger] from[t]) is None ==> (
        #[trigger] b[k]).identity != a[t].identity
}

/// The identity of the node at place `t` of the union.
spec fn identity_at<T>(
    a: Seq<DAGNode<T>>,
    b: Seq<DAGNode<T>>,
    from: Seq<Option<usize>>,
    t: int,
) -> u64 {
    if t < a.len() {
        a[t].identity
    } else {
        b[from[t].unwrap() as int].identity
    }
}

/// The payload of the node at place `t` of the union.
spec fn payload_at<T>(
    a: Seq<DAGNode<T>>,
    b: Seq<DAGNode<T>>,
    from: Seq<Option<usize>>,
    t: int,
) -> T {
    if t < a.len() {
        a[t].current_data
    } else {
        b[from[t].unwrap() as int].current_data
    }
}

/// `x` is the place of one of the first `upto` predecessors of the remote
/// node `j`.
spec fn remote_edge<T>(b: Seq<DAGNode<T>>, to: Seq<usize>, j: int, upto: int, x: usize) -> bool {
    exists|k: int| 0 <= k < upto && to[#[trigger] b[j].predecessors@[k] as int] == x
}

/// `x` is the place of a predecessor of the node at place `t` of the union.
spec fn union_edge<T>(
    a: Seq<DAGNode<T>>,
    b: Seq<DAGNode<T>>,
    to: Seq<usize>,
    from: Seq<Option<usize>>,
    t: int,
    x: usize,
) -> bool {
    ||| t < a.len() && a[t].predecessors@.contains(x)
    ||| from[t] matches Some(j) && remote_edge(b, to, j as int, b[j as int].predecessors@.len() as int, x)
}

/// `node` is the node at place `t` of the union.
spec fn assembled<T>(
    a: Seq<DAGNode<T>>,
    b: Seq<DAGNode<T>>,
    to: Seq<usize>,
    from: Seq<Option<usize>>,
    t: int,
    node: DAGNode<T>,
) -> bool {
    &&& node.identity == identity_at(a, b, from, t)
    &&& node.current_data == payload_at(a, b, from, t)
    &&& ascending(node.predecessors@)
    &&& forall|x: usize| node.predecessors@.contains(x) <==> union_edge(a, b, to, from, t, x)
}

/// The shared operations have the same payload in both arenas.
spec fn agreed<T>(a: Seq<DAGNode<T>>, b: Seq<DAGNode<T>>, to: Seq<usize>, done: int) -> bool {
    forall|k: int|
        0 <= k < done && (#[trigger] to[k]) < a.len() ==> a[to[k] as int].current_data
            == b[k].current_data
}

/// Two nodes with one identity and different payloads make the histories
/// incompatible.
proof fn lemma_collision<T>(a: Seq<DAGNode<T>>, b: Seq<DAGNode<T>>, i: int, j: int)
    requires
        distinct_identities(a),
        distinct_identities(b),
        0 <= i < a.len(),
        0 <= j < b.len(),
        a[i].identity == b[j].identity,
        a[i].current_data != b[j].current_data,
    ensures
        !compatible(history(a), history(b)),
{
    lemma_position(a, i);
    lemma_position(b, j);
    let id = a[i].identity;
    assert(history(a).dom().contains(id) && history(b).dom().contains(id));
    assert(history(a)[id].payload != history(b)[id].payload);
}

/// The arena assembled from two well-formed arenas records the union of their
/// histories.
proof fn lemma_assembled<T>(
    a: Seq<DAGNode<T>>,
    b: Seq<DAGNode<T>>,
    to: Seq<usize>,
    from: Seq<Option<usize>>,
    u: Seq<DAGNode<T>>,
)
    requires
        well_formed(a),
        well_formed(b),
        placed(a, b, to, from, b.len() as int),
        u.len() == from.len(),
        forall|t: int| 0 <= t < u.len() ==> assembled(a, b, to, from, t, #[trigger] u[t]),
    ensures
        closed(edges(u)),
        distinct_identities(u),
        forall|t: int| 0 <= t < u.len() ==> ascending(#[trigger] u[t].predecessors@),
        agreed(a, b, to, b.len() as int) ==> compatible(history(a), history(b)) && history(u)
            == union(history(a), history(b)),
{
    let ha = history(a);
    let hb = history(b);
    let hu = history(u);
    // every remote node is found at its place
    assert forall|k: int| 0 <= k < b.len() implies u[(#[trigger] to[k]) as int].identity
        == b[k].identity by {
        assert(assembled(a, b, to, from, to[k] as int, u[to[k] as int]));
    }
    assert forall|s: int, t: int|
        0 <= s < u.len() && 0 <= t < u.len() && s != t implies #[trigger] u[s].identity
        != #[trigger] u[t].identity by {
        lemma_places_differ(a, b, to, from, u, s, t);
    }
    assert forall|t: int, k: int| 0 <= t < u.len() && 0 <= k < edges(u)[t].len() implies (
    #[trigger] edges(u)[t][k]) < u.len() by {
        let x = u[t].predecessors@[k];
        assert(u[t].predecessors@.contains(x));
        assert(assembled(a, b, to, from, t, u[t]));
        lemma_union_edge_inside(a, b, to, from, t, x);
    }
    if agreed(a, b, to, b.len() as int) {
        assert forall|id: u64| ha.dom().contains(id) && hb.dom().contains(id) implies (
        #[trigger] ha[id]).payload == (#[trigger] hb[id]).payload by {
            let i = position(a, id);
            let j = position(b, id);
            if to[j] < a.len() {
                lemma_position(a, to[j] as int);
            } else {
                assert(holds(a, b[j].identity));
            }
        }
        assert forall|id: u64| hu.dom().contains(id) <==> union(ha, hb).dom().contains(id) by {
            if holds(u, id) {
                let t = position(u, id);
                assert(assembled(a, b, to, from, t, u[t]));
                if t < a.len() {
                    assert(a[t].identity == id);
                } else {
                    assert(b[from[t].unwrap() as int].identity == id);
                }
            }
            if holds(a, id) {
                let i = position(a, id);
                assert(assembled(a, b, to, from, i, u[i]));
                assert(u[i].identity == id);
            }
            if holds(b, id) {
                let j = position(b, id);
                assert(u[to[j] as int].identity == id);
            }
        }
        assert forall|id: u64| hu.dom().contains(id) implies #[trigger] hu[id] == union(
            ha,
            hb,
        )[id] by {
            lemma_same_operation(a, b, to, from, u, id);
        }
        assert(hu =~= union(ha, hb));
    }
}

proof fn lemma_places_differ<T>(
    a: Seq<DAGNode<T>>,
    b: Seq<DAGNode<T>>,
    to: Seq<usize>,
    from: Seq<Option<usize>>,
    u: Seq<DAGNode<T>>,
    s: int,
    t: int,
)
    requires
        well_formed(a),
        well_formed(b),
        placed(a, b, to, from, b.len() as int),
        u.len() == from.len(),
        forall|t: int| 0 <= t < u.len() ==> assembled(a, b, to, from, t, #[trigger] u[t]),
        0 <= s < u.len(),
        0 <= t < u.len(),
        s != t,
    ensures
        u[s].identity != u[t].identity,
{
    assert(assembled(a, b, to, from, s, u[s]));
    assert(assembled(a, b, to, from, t, u[t]));
    if s >= a.len() {
        let k = from[s].unwrap() as int;
        assert(to[k] == s);
        if t >= a.len() {
            let m = from[t].unwrap() as int;
            assert(to[m] == t);
        } else {
            assert(!holds(a, b[k].identity));
        }
    } else if t >= a.len() {
        let m = from[t].unwrap() as int;
        assert(to[m] == t);
        assert(!holds(a, b[m].identity));
    }
}

proof fn lemma_union_edge_inside<T>(
    a: Seq<DAGNode<T>>,
    b: Seq<DAGNode<T>>,
    to: Seq<usize>,
    from: Seq<Option<usize>>,
    t: int,
    x: usize,
)
    requires
        well_formed(a),
        well_formed(b),
        placed(a, b, to, from, b.len() as int),
        0 <= t < from.len(),
        union_edge(a, b, to, from, t, x),
    ensures
        x < from.len(),
{
    if t < a.len() && a[t].predecessors@.contains(x) {
        let k = choose|k: int| 0 <= k < a[t].predecessors@.len() && a[t].predecessors@[k] == x;
        assert(edges(a)[t][k] < a.len());
    } else {
        let j = from[t].unwrap() as int;
        let k = choose|k: int|
            0 <= k < b[j].predecessors@.len() && to[#[trigger] b[j].predecessors@[k] as int] == x;
        assert(edges(b)[j][k] < b.len());
        let p = b[j].predecessors@[k] as int;
        assert(to[p] < from.len());
    }
}

/// The node of the union with the identity `id` has the payload and the
/// predecessors that the union of the histories gives to `id`.
proof fn lemma_same_operation<T>(
    a: Seq<DAGNode<T>>,
    b: Seq<DAGNode<T>>,
    to: Seq<usize>,
    from: Seq<Option<usize>>,
    u: Seq<DAGNode<T>>,
    id: u64,
)
    requires
        well_formed(a),
        well_formed(b),
        placed(a, b, to, from, b.len() as int),
        agreed(a, b, to, b.len() as int),
        u.len() == from.len(),
        forall|t: int| 0 <= t < u.len() ==> assembled(a, b, to, from, t, #[trigger] u[t]),
        distinct_identities(u),
        forall|k: int| 0 <= k < b.len() ==> u[(#[trigger] to[k]) as int].identity == b[k].identity,
        holds(u, id),
    ensures
        holds(a, id) || holds(b, id),
        history(u)[id] == union(history(a), history(b))[id],
{
    let ha = history(a);
    let hb = history(b);
    let t = position(u, id);
    assert(assembled(a, b, to, from, t, u[t]));
    // which of the two arenas hold the operation
    if t < a.len() {
        lemma_position(a, t);
    } else {
        let j = from[t].unwrap() as int;
        assert(to[j] == t);
        lemma_position(b, j);
        assert(!holds(a, id));
    }
    if holds(a, id) {
        let i = position(a, id);
        assert(assembled(a, b, to, from, i, u[i]));
        lemma_position(u, i);
        assert(i == t);
    }
    if holds(b, id) {
        let j = position(b, id);
        lemma_position(u, to[j] as int);
        assert(to[j] == t);
        assert(from[t] == Some(j as usize));
    } else if from[t] is Some {
        let j = from[t].unwrap() as int;
        assert(to[j] == t);
        lemma_position(b, j);
    }
    let want = union(ha, hb)[id];
    assert(history(u)[id].payload == want.payload);
    assert forall|q: u64| named(u, t).contains(q) <==> want.predecessors.contains(q) by {
        if named(u, t).contains(q) {
            let k = choose|k: int|
                0 <= k < u[t].predecessors@.len() && u[#[trigger] u[t].predecessors@[k] as int].identity
                    == q;
            let x = u[t].predecessors@[k];
            assert(u[t].predecessors@.contains(x));
            assert(union_edge(a, b, to, from, t, x));
            if t < a.len() && a[t].predecessors@.contains(x) {
                let m = choose|m: int|
                    0 <= m < a[t].predecessors@.len() && a[t].predecessors@[m] == x;
                assert(edges(a)[t][m] < a.len());
                assert(assembled(a, b, to, from, x as int, u[x as int]));
                assert(a[a[t].predecessors@[m] as int].identity == q);
                assert(named(a, t).contains(q));
            } else {
                let j = from[t].unwrap() as int;
                let m = choose|m: int|
                    0 <= m < b[j].predecessors@.len() && to[#[trigger] b[j].predecessors@[m] as int]
                        == x;
                assert(edges(b)[j][m] < b.len());
                let p = b[j].predecessors@[m];
                assert(u[to[p as int] as int].identity == b[p as int].identity);
                assert(b[b[j].predecessors@[m] as int].identity == q);
                assert(named(b, j).contains(q));
            }
        }
        if holds(a, id) && named(a, t).contains(q) {
            let m = choose|m: int|
                0 <= m < a[t].predecessors@.len() && a[#[trigger] a[t].predecessors@[m] as int].identity
                    == q;
            let x = a[t].predecessors@[m];
            assert(a[t].predecessors@.contains(x));
            assert(union_edge(a, b, to, from, t, x));
            assert(u[t].predecessors@.contains(x));
            let k = choose|k: int| 0 <= k < u[t].predecessors@.len() && u[t].predecessors@[k] == x;
            assert(edges(a)[t][m] < a.len());
            assert(assembled(a, b, to, from, x as int, u[x as int]));
            assert(u[u[t].predecessors@[k] as int].identity == q);
        }
        if holds(b, id) && named(b, position(b, id)).contains(q) {
            let j = position(b, id);
            let m = choose|m: int|
                0 <= m < b[j].predecessors@.len() && b[#[trigger] b[j].predecessors@[m] as int].identity
                    == q;
            let p = b[j].predecessors@[m];
            assert(edges(b)[j][m] < b.len());
            let x = to[p as int];
            assert(remote_edge(b, to, j, b[j].predecessors@.len() as int, x));
            assert(union_edge(a, b, to, from, t, x));
            assert(u[t].predecessors@.contains(x));
            let k = choose|k: int| 0 <= k < u[t].predecessors@.len() && u[t].predecessors@[k] == x;
            assert(u[to[p as int] as int].identity == b[p as int].identity);
            assert(u[u[t].predecessors@[k] as int].identity == q);
        }
    }
    assert(named(u, t) =~= want.predecessors);
}

/// Combines the stores of two replicas into one.
///
/// Every operation of either store is in the result; one that both hold is
/// there once, with the predecessors that either store records. The inputs are
/// left as they are.
///
/// Fails with `IdentityCollision` if the stores give different payloads to
/// one identity; otherwise with `InconsistentCausalOrder` if the causal edges
/// of the two stores together form a cycle.
pub fn merge<T: Copy + PartialEq>(local: &NodeStore<T>, remote: &NodeStore<T>) -> (r: Result<
    NodeStore<T>,
    DagError,
>)
    requires
        local.wf(),
        remote.wf(),
    ensures
        r matches Ok(merged) ==> {
            &&& merged.wf()
            &&& merged.arena().len() == local.arena().len() + newcomers(
                local.arena(),
                remote.arena(),
            ).len()
            &&& forall|i: int|
                0 <= i < local.arena().len() ==> (#[trigger] merged.arena()[i]).identity
                    == local.arena()[i].identity
            &&& forall|k: int|
                0 <= k < newcomers(local.arena(), remote.arena()).len() ==> (
                #[trigger] merged.arena()[local.arena().len() + k]).identity == newcomers(
                    local.arena(),
                    remote.arena(),
                )[k].identity
        },
        exact_equality::<T>() ==> match r {
            Ok(merged) => {
                &&& compatible(local@, remote@)
                &&& consistent(union(local@, remote@))
                &&& merged@ == union(local@, remote@)
            },
            Err(e) => if compatible(local@, remote@) {
                e == DagError::InconsistentCausalOrder && !consistent(union(local@, remote@))
            } else {
                e == DagError::IdentityCollision
            },
        },
{
    let a = local.nodes();
    let b = remote.nodes();
    let local_count = a.len();
    let mut to: Vec<usize> = Vec::new();
    let mut from: Vec<Option<usize>> = Vec::new();
    let mut i: usize = 0;
    while i < local_count
        invariant
            i <= local_count,
            from.len() == i,
            forall|t: int| 0 <= t < i ==> from[t] is None,
        decreases local_count - i,
    {
        from.push(None);
        i += 1;
    }
    let mut j: usize = 0;
    assert(b@.take(0) =~= Seq::<DAGNode<T>>::empty());
    while j < b.len()
        invariant
            j <= b.len(),
            local_count == a.len(),
            a@ == local.arena(),
            b@ == remote.arena(),
            well_formed(a@),
            well_formed(b@),
            placed(a@, b@, to@, from@, j as int),
            in_line(a@, b@, to@, from@, j as int),
            exact_equality::<T>() ==> agreed(a@, b@, to@, j as int),
        decreases b.len() - j,
    {
        let ghost old_to = to@;
        let ghost old_from = from@;
        proof {
            assert(b@.take(j + 1).drop_last() =~= b@.take(j as int));
            assert(b@.take(j + 1).last() == b@[j as int]);
        }
        match local.find(b[j].identity) {
            Some(i) => {
                if !same(&a[i].current_data, &b[j].current_data) {
                    proof {
                        if exact_equality::<T>() {
                            lemma_collision(a@, b@, i as int, j as int);
                        }
                    }
                    return Err(DagError::IdentityCollision);
                }
                proof {
                    if old_from[i as int] is Some {
                        let k = old_from[i as int].unwrap() as int;
                        assert(old_to[k] == i);
                        assert(a@[old_to[k] as int].identity == b@[k].identity);
                    }
                }
                to.push(i);
                from.set(i, Some(j));
                proof {
                    assert forall|k: int| 0 <= k < j + 1 implies (#[trigger] to@[k]) < from@.len()
                        && from@[to@[k] as int] == Some(k as usize) by {
                        if k < j {
                            assert(old_to[k] == to@[k]);
                            if old_to[k] == i {
                                assert(a@[old_to[k] as int].identity == b@[k].identity);
                            }
                        }
                    }
                    assert forall|k: int| 0 <= k < j + 1 implies if (#[trigger] to@[k]) < a@.len() {
                        a@[to@[k] as int].identity == b@[k].identity
                    } else {
                        !holds(a@, b@[k].identity)
                    } by {
                        if k < j {
                            assert(old_to[k] == to@[k]);
                        }
                    }
                    assert forall|t: int, k: int|
                        0 <= t < from@.len() && 0 <= k < j + 1 && (#[trigger] from@[t])
                            is None implies (#[trigger] b@[k]).identity != a@[t].identity by {
                        assert(old_from[t] is None);
                    }
                    assert forall|t: int|
                        0 <= t < from@.len() && (#[trigger] from@[t]) is Some implies from@[t].unwrap()
                        < j + 1 && to@[from@[t].unwrap() as int] == t by {
                        if t != i {
                            assert(old_from[t] is Some);
                            assert(to@[old_from[t].unwrap() as int] == old_to[old_from[t].unwrap() as int]);
                        }
                    }
                    assert forall|t: int|
                        0 <= t < from@.len() && (#[trigger] from@[t]) is None implies t < a@.len() by {
                        assert(old_from[t] is None);
                    }
                    if exact_equality::<T>() {
                        assert forall|k: int|
                            0 <= k < j + 1 && (#[trigger] to@[k]) < a@.len() implies a@[to@[k] as int].current_data
                            == b@[k].current_data by {
                            if k < j {
                                assert(old_to[k] == to@[k]);
                            }
                        }
                    }
                }
            },
            None => {
                let place = from.len();
                to.push(place);
                from.push(Some(j));
                proof {
                    assert forall|k: int| 0 <= k < j + 1 implies (#[trigger] to@[k]) < from@.len()
                        && from@[to@[k] as int] == Some(k as usize) by {
                        if k < j {
                            assert(old_to[k] == to@[k]);
                        }
                    }
                    assert forall|k: int| 0 <= k < j + 1 implies if (#[trigger] to@[k]) < a@.len() {
                        a@[to@[k] as int].identity == b@[k].identity
                    } else {
                        !holds(a@, b@[k].identity)
                    } by {
                        if k < j {
                            assert(old_to[k] == to@[k]);
                        }
                    }
                    assert forall|t: int, k: int|
                        0 <= t < from@.len() && 0 <= k < j + 1 && (#[trigger] from@[t])
                            is None implies (#[trigger] b@[k]).identity != a@[t].identity by {
                        assert(old_from[t] is None);
                    }
                    assert forall|t: int|
                        0 <= t < from@.len() && (#[trigger] from@[t]) is Some implies from@[t].unwrap()
                        < j + 1 && to@[from@[t].unwrap() as int] == t by {
                        if t < place {
                            assert(old_from[t] is Some);
                            assert(to@[old_from[t].unwrap() as int] == old_to[old_from[t].unwrap() as int]);
                        }
                    }
                    assert forall|t: int|
                        0 <= t < from@.len() && (#[trigger] from@[t]) is None implies t < a@.len() by {
                        assert(old_from[t] is None);
                    }
                    if exact_equality::<T>() {
                        assert forall|k: int|
                            0 <= k < j + 1 && (#[trigger] to@[k]) < a@.len() implies a@[to@[k] as int].current_data
                            == b@[k].current_data by {
                            if k < j {
                                assert(old_to[k] == to@[k]);
                            }
                        }
                    }
                }
            },
        }
        j += 1;
    }
    let total = from.len();
    let mut nodes: Vec<DAGNode<T>> = Vec::new();
    let mut all: Vec<usize> = Vec::new();
    let mut t: usize = 0;
    while t < total
        invariant
            t <= total,
            total == from.len(),
            local_count == a.len(),
            well_formed(a@),
            well_formed(b@),
            placed(a@, b@, to@, from@, b.len() as int),
            in_line(a@, b@, to@, from@, b.len() as int),
            nodes.len() == t,
            all.len() == t,
            forall|s: int| 0 <= s < t ==> all[s] == s,
            forall|s: int| 0 <= s < t ==> assembled(a@, b@, to@, from@, s, #[trigger] nodes[s]),
        decreases total - t,
    {
        let mut list: Vec<usize> = if t < local_count {
            copy_list(&a[t].predecessors)
        } else {
            Vec::new()
        };
        assert(t < local_count ==> ascending(a@[t as int].predecessors@));
        let identity: u64;
        let payload: T;
        match from[t] {
            Some(j) => {
                assert(to@[j as int] == t);
                let remote_list = &b[j].predecessors;
                let mut k: usize = 0;
                while k < remote_list.len()
                    invariant
                        k <= remote_list.len(),
                        j < b.len(),
                        remote_list@ == b@[j as int].predecessors@,
                        to.len() == b.len(),
                        closed(edges(b@)),
                        ascending(list@),
                        forall|x: usize|
                            list@.contains(x) <==> (t < a.len() && a@[t as int].predecessors@.contains(
                                x,
                            )) || remote_edge(b@, to@, j as int, k as int, x),
                    decreases remote_list.len() - k,
                {
                    let p = remote_list[k];
                    assert(edges(b@)[j as int][k as int] < b.len());
                    let ghost before = list@;
                    let place = to[p];
                    insert_sorted(&mut list, place);
                    proof {
                        assert forall|x: usize|
                            list@.contains(x) <==> (t < a.len() && a@[t as int].predecessors@.contains(
                                x,
                            )) || remote_edge(b@, to@, j as int, k + 1, x) by {
                            assert(list@.to_set().contains(x) <==> before.to_set().insert(
                                place,
                            ).contains(x));
                            if remote_edge(b@, to@, j as int, k + 1, x) {
                                let m = choose|m: int|
                                    0 <= m < k + 1 && to@[#[trigger] b@[j as int].predecessors@[m] as int]
                                        == x;
                                if m < k {
                                    assert(remote_edge(b@, to@, j as int, k as int, x));
                                }
                            }
                            if remote_edge(b@, to@, j as int, k as int, x) {
                                let m = choose|m: int|
                                    0 <= m < k && to@[#[trigger] b@[j as int].predecessors@[m] as int]
                                        == x;
                                assert(0 <= m < k + 1);
                            }
                            if x == place {
                                assert(to@[b@[j as int].predecessors@[k as int] as int] == x);
                            }
                        }
                    }
                    k += 1;
                }
                if t < local_count {
                    identity = a[t].identity;
                    payload = a[t].current_data;
                } else {
                    identity = b[j].identity;
                    payload = b[j].current_data;
                }
            },
            None => {
                identity = a[t].identity;
                payload = a[t].current_data;
                assert forall|x: usize| !remote_edge(b@, to@, 0, 0, x) by {}
            },
        }
        nodes.push(DAGNode { identity, predecessors: list, current_data: payload });
        all.push(t);
        t += 1;
    }
    proof {
        lemma_assembled(a@, b@, to@, from@, nodes@);
        assert forall|i: int| 0 <= i < a@.len() implies (#[trigger] nodes@[i]).identity
            == a@[i].identity by {
            assert(assembled(a@, b@, to@, from@, i, nodes@[i]));
        }
        assert(b@.take(b@.len() as int) =~= b@);
        assert forall|k: int| 0 <= k < newcomers(a@, b@).len() implies (
        #[trigger] nodes@[a@.len() + k]).identity == newcomers(a@, b@)[k].identity by {
            let t = a@.len() + k;
            assert(assembled(a@, b@, to@, from@, t, nodes@[t]));
            let j = from@[t].unwrap() as int;
            assert(to@[j] == t);
            lemma_newcomers_stay(a@, b@, j, b@.len() as int);
        }
        let g = edges(nodes@);
        assert forall|v: usize| v < g.len() implies all@.contains(v) by {
            assert(all@[v as int] == v);
        }
        law_whole_arena(g, all@);
        lemma_consistent_iff_acyclic(nodes@);
    }
    match topological_sort(&nodes, all) {
        Ok(_) => Ok(NodeStore::from_nodes(nodes)),
        Err(_) => Err(DagError::InconsistentCausalOrder),
    }
}

} // verus!
