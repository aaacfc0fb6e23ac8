//! Stores as plain nodes, to hand a history from one replica to another.

use crate::graph::{acyclic, ascending, closed, is_cycle, linked};
use crate::node::{edges, DAGNode, DagError};
use crate::order::topological_sort;
use crate::order_laws::law_whole_arena;
use crate::store::{
    copy_list, distinct_identities, history, holds, insert_sorted, named, position,
    NodeStore,
};
use vstd::prelude::*;

verus! {

/// The two arenas have, position by position, nodes with the same identity,
/// the same payload and the same predecessors.
pub open spec fn same_nodes<T>(a: Seq<DAGNode<T>>, b: Seq<DAGNode<T>>) -> bool {
    &&& a.len() == b.len()
    &&& forall|i: int|
        0 <= i < a.len() ==> {
            &&& (#[trigger] a[i]).identity == b[i].identity
            &&& a[i].current_data == b[i].current_data
            &&& a[i].predecessors@.to_set() == b[i].predecessors@.to_set()
        }
}

/// The nodes can be the store of a replica: every predecessor is one of them,
/// each identity names one of them, and none depends on itself.
pub open spec fn importable<T>(nodes: Seq<DAGNode<T>>) -> bool {
    &&& closed(edges(nodes))
    &&& distinct_identities(nodes)
    &&& acyclic(edges(nodes))
}

/// Arenas with the same nodes have the same cycles, and one is closed if the
/// other is.
proof fn lemma_same_shape<T>(a: Seq<DAGNode<T>>, b: Seq<DAGNode<T>>)
    requires
        same_nodes(a, b),
    ensures
        closed(edges(a)) ==> closed(edges(b)),
        acyclic(edges(a)) ==> acyclic(edges(b)),
        distinct_identities(a) ==> distinct_identities(b),
{
    let g = edges(a);
    let h = edges(b);
    if closed(g) {
        assert forall|n: int, k: int| 0 <= n < h.len() && 0 <= k < h[n].len() implies (
        #[trigger] h[n][k]) < h.len() by {
            assert(b[n].predecessors@.to_set().contains(h[n][k]));
            assert(a[n].predecessors@.contains(h[n][k]));
            let m = choose|m: int| 0 <= m < g[n].len() && g[n][m] == h[n][k];
            assert(g[n][m] < g.len());
        }
    }
    if acyclic(g) {
        assert forall|p: Seq<usize>| !#[trigger] is_cycle(h, p) by {
            if is_cycle(h, p) {
                assert forall|i: int| 0 <= i < p.len() - 1 implies #[trigger] linked(g, p, i) by {
                    assert(linked(h, p, i));
                    assert(b[p[i] as int].predecessors@.to_set().contains(p[i + 1]));
                    assert(a[p[i] as int].predecessors@.contains(p[i + 1]));
                }
                assert(is_cycle(g, p));
            }
        }
    }
    if distinct_identities(a) {
        assert forall|i: int, j: int|
            0 <= i < b.len() && 0 <= j < b.len() && i != j implies #[trigger] b[i].identity
            != #[trigger] b[j].identity by {
            assert(a[i].identity == b[i].identity && a[j].identity == b[j].identity);
        }
    }
}

/// Arenas with the same nodes record the same history.
pub proof fn lemma_same_history<T>(a: Seq<DAGNode<T>>, b: Seq<DAGNode<T>>)
    requires
        same_nodes(a, b),
        distinct_identities(a),
        closed(edges(a)),
    ensures
        history(a) == history(b),
{
    lemma_same_shape(a, b);
    assert forall|id: u64| holds(a, id) <==> holds(b, id) by {
        if holds(a, id) {
            let i = position(a, id);
            assert(b[i].identity == id);
        }
        if holds(b, id) {
            let i = position(b, id);
            assert(a[i].identity == id);
        }
    }
    assert forall|id: u64| holds(a, id) implies #[trigger] history(a)[id] == history(b)[id] by {
        let i = position(a, id);
        let j = position(b, id);
        assert(a[j].identity == b[j].identity);
        assert(i == j);
        let x = a[i].predecessors@;
        let y = b[i].predecessors@;
        assert forall|q: u64| named(a, i).contains(q) <==> named(b, i).contains(q) by {
            if named(a, i).contains(q) {
                let k = choose|k: int| 0 <= k < x.len() && a[#[trigger] x[k] as int].identity == q;
                assert(x.to_set().contains(x[k]));
                assert(y.contains(x[k]));
                let m = choose|m: int| 0 <= m < y.len() && y[m] == x[k];
                assert(edges(a)[i][k] < a.len());
                assert(a[x[k] as int].identity == b[x[k] as int].identity);
                assert(b[y[m] as int].identity == q);
            }
            if named(b, i).contains(q) {
                let k = choose|k: int| 0 <= k < y.len() && b[#[trigger] y[k] as int].identity == q;
                assert(y.to_set().contains(y[k]));
                assert(x.contains(y[k]));
                let m = choose|m: int| 0 <= m < x.len() && x[m] == y[k];
                assert(edges(a)[i][m] < a.len());
                assert(a[x[m] as int].identity == b[x[m] as int].identity);
                assert(a[x[m] as int].identity == q);
            }
        }
        assert(named(a, i) =~= named(b, i));
    }
    assert(history(a) =~= history(b));
}

/// Whether no two nodes have the same identity.
fn identities_differ<T>(nodes: &Vec<DAGNode<T>>) -> (r: bool)
    ensures
        r == distinct_identities(nodes@),
{
    let mut i: usize = 0;
    while i < nodes.len()
        invariant
            i <= nodes.len(),
            forall|a: int, b: int|
                0 <= a < i && 0 <= b < nodes.len() && a != b ==> #[trigger] nodes[a].identity
                    != #[trigger] nodes[b].identity,
        decreases nodes.len() - i,
    {
        let mut j: usize = 0;
        while j < nodes.len()
            invariant
                i < nodes.len(),
                j <= nodes.len(),
                forall|b: int|
                    0 <= b < j && b != i ==> nodes[i as int].identity != (#[trigger] nodes[b]).identity,
            decreases nodes.len() - j,
        {
            if j != i && nodes[i].identity == nodes[j].identity {
                return false;
            }
            j += 1;
        }
        i += 1;
    }
    true
}

impl<T: Copy> NodeStore<T> {
    /// The nodes of the store as plain values, for another replica to import.
    pub fn export_snapshot(&self) -> (r: Vec<DAGNode<T>>)
        ensures
            same_nodes(self.arena(), r@),
            forall|i: int|
                0 <= i < r.len() ==> (#[trigger] r[i]).predecessors@
                    == self.arena()[i].predecessors@,
    {
        let nodes = self.nodes();
        let mut r: Vec<DAGNode<T>> = Vec::new();
        let mut i: usize = 0;
        while i < nodes.len()
            invariant
                i <= nodes.len(),
                r.len() == i,
                forall|k: int|
                    0 <= k < i ==> {
                        &&& (#[trigger] r[k]).identity == nodes[k].identity
                        &&& r[k].current_data == nodes[k].current_data
                        &&& r[k].predecessors@ == nodes[k].predecessors@
                    },
            decreases nodes.len() - i,
        {
            let predecessors = copy_list(&nodes[i].predecessors);
            r.push(
                DAGNode {
                    identity: nodes[i].identity,
                    predecessors,
                    current_data: nodes[i].current_data,
                },
            );
            i += 1;
        }
        r
    }
}

impl<T> NodeStore<T> {
    /// The store that holds the given nodes at their positions, each
    /// predecessor list put in ascending order.
    ///
    /// Fails with `UnknownPredecessor` if a predecessor is not the position of
    /// a node; otherwise with `IdentityCollision` if two nodes have the same
    /// identity; otherwise with `CycleDetected` if a node depends on itself.
    pub fn import_snapshot(nodes: Vec<DAGNode<T>>) -> (r: Result<NodeStore<T>, DagError>)
        ensures
            r is Ok <==> importable(nodes@),
            match r {
                Ok(store) => {
                    &&& store.wf()
                    &&& same_nodes(nodes@, store.arena())
                    &&& store@ == history(nodes@)
                },
                Err(e) => e == if !closed(edges(nodes@)) {
                    DagError::UnknownPredecessor
                } else if !distinct_identities(nodes@) {
                    DagError::IdentityCollision
                } else {
                    DagError::CycleDetected
                },
            },
    {
        let ghost given = nodes@;
        let count = nodes.len();
        let mut arena = nodes;
        let mut all: Vec<usize> = Vec::new();
        let mut i: usize = 0;
        while i < count
            invariant
                i <= count,
                given == nodes@,
                count == given.len(),
                arena.len() == count,
                all.len() == i,
                forall|k: int| 0 <= k < i ==> all[k] == k,
                forall|k: int| i <= k < count ==> arena[k] == given[k],
                forall|k: int|
                    0 <= k < i ==> {
                        &&& (#[trigger] arena[k]).identity == given[k].identity
                        &&& arena[k].current_data == given[k].current_data
                        &&& arena[k].predecessors@.to_set() == given[k].predecessors@.to_set()
                        &&& ascending(arena[k].predecessors@)
                    },
                forall|n: int, k: int|
                    0 <= n < i && 0 <= k < given[n].predecessors@.len() ==> (
                    #[trigger] given[n].predecessors@[k]) < count,
            decreases count - i,
        {
            let mut sorted: Vec<usize> = Vec::new();
            let mut k: usize = 0;
            assert(sorted@.to_set() =~= arena[i as int].predecessors@.take(0).to_set());
            while k < arena[i].predecessors.len()
                invariant
                    given == nodes@,
                    i < count,
                    arena.len() == count,
                    count == given.len(),
                    arena[i as int] == given[i as int],
                    k <= arena[i as int].predecessors.len(),
                    ascending(sorted@),
                    sorted@.to_set() == arena[i as int].predecessors@.take(k as int).to_set(),
                    forall|m: int| 0 <= m < k ==> (#[trigger] given[i as int].predecessors@[m]) < count,
                decreases arena[i as int].predecessors.len() - k,
            {
                let p = arena[i].predecessors[k];
                if p >= count {
                    proof {
                        assert(edges(given)[i as int][k as int] >= given.len());
                    }
                    return Err(DagError::UnknownPredecessor);
                }
                insert_sorted(&mut sorted, p);
                proof {
                    let list = arena[i as int].predecessors@;
                    assert(list.take(k + 1) =~= list.take(k as int).push(p));
                    crate::order::lemma_push_to_set(list.take(k as int), p);
                }
                k += 1;
            }
            assert(arena[i as int].predecessors@.take(k as int) =~= arena[i as int].predecessors@);
            arena[i].predecessors = sorted;
            all.push(i);
            i += 1;
        }
        proof {
            assert(closed(edges(given)));
            assert(same_nodes(given, arena@));
            lemma_same_shape(given, arena@);
            lemma_same_shape(arena@, given);
        }
        if !identities_differ(&arena) {
            return Err(DagError::IdentityCollision);
        }
        proof {
            let g = edges(arena@);
            assert forall|v: usize| v < g.len() implies all@.contains(v) by {
                assert(all@[v as int] == v);
            }
            law_whole_arena(g, all@);
            lemma_same_history(given, arena@);
        }
        match topological_sort(&arena, all) {
            Ok(_) => Ok(NodeStore::from_nodes(arena)),
            Err(_) => Err(DagError::CycleDetected),
        }
    }
}

/// What one replica exports, another can import, and it has the same store.
pub proof fn law_snapshot_round_trip<T>(store: NodeStore<T>, snapshot: Seq<DAGNode<T>>)
    requires
        store.wf(),
        same_nodes(store.arena(), snapshot),
    ensures
        importable(snapshot),
        history(snapshot) == store@,
{
    lemma_same_shape(store.arena(), snapshot);
    lemma_same_history(store.arena(), snapshot);
}

} // verus!
