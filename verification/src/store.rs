//! The node store of one replica.
//!
//! A store only grows: a node is inserted after the nodes it depends on, so
//! the predecessor relation has no cycle by construction. Inside a store a
//! node is known by its position; across replicas by its identity.

use crate::graph::{
    acyclic, ascending, closed, is_cycle, is_predecessor, is_root, is_source, lemma_root_list,
    linked, respects, root_list,
};
use crate::node::{edges, DAGNode, DagError};
use crate::order::{topological_order, topological_sort};
use crate::order_laws::law_replay_from_roots_is_complete;
use vstd::pervasive::unreached;
use vstd::prelude::*;

verus! {

/// An operation as every replica sees it: its payload, and the identities of
/// the operations it causally depends on.
pub struct Operation<T> {
    pub payload: T,
    pub predecessors: Set<u64>,
}

/// Some node of the arena has the identity `id`.
pub open spec fn holds<T>(nodes: Seq<DAGNode<T>>, id: u64) -> bool {
    exists|i: int| 0 <= i < nodes.len() && #[trigger] nodes[i].identity == id
}

/// The position of the node with the identity `id`.
pub open spec fn position<T>(nodes: Seq<DAGNode<T>>, id: u64) -> int {
    choose|i: int| 0 <= i < nodes.len() && #[trigger] nodes[i].identity == id
}

/// The identities of the nodes at the given positions.
pub open spec fn identities_at<T>(nodes: Seq<DAGNode<T>>, positions: Seq<usize>) -> Set<u64> {
    Set::new(
        |q: u64|
            exists|k: int|
                0 <= k < positions.len() && nodes[#[trigger] positions[k] as int].identity == q,
    )
}

/// The identities of the predecessors of the node at position `i`.
pub open spec fn named<T>(nodes: Seq<DAGNode<T>>, i: int) -> Set<u64> {
    identities_at(nodes, nodes[i].predecessors@)
}

/// The history that an arena records, by identity.
pub open spec fn history<T>(nodes: Seq<DAGNode<T>>) -> Map<u64, Operation<T>> {
    Map::new(
        |id: u64| holds(nodes, id),
        |id: u64|
            Operation {
                payload: nodes[position(nodes, id)].current_data,
                predecessors: named(nodes, position(nodes, id)),
            },
    )
}

/// No two nodes of the arena have the same identity.
pub open spec fn distinct_identities<T>(nodes: Seq<DAGNode<T>>) -> bool {
    forall|i: int, j: int|
        0 <= i < nodes.len() && 0 <= j < nodes.len() && i != j ==> #[trigger] nodes[i].identity
            != #[trigger] nodes[j].identity
}

/// What makes an arena the store of a replica: every predecessor is a node of
/// the arena, no node depends on itself, each predecessor list is a set in
/// ascending order, and each identity names one node.
pub open spec fn well_formed<T>(nodes: Seq<DAGNode<T>>) -> bool {
    &&& closed(edges(nodes))
    &&& acyclic(edges(nodes))
    &&& forall|i: int| 0 <= i < nodes.len() ==> ascending(#[trigger] nodes[i].predecessors@)
    &&& distinct_identities(nodes)
}

/// Puts `x` into an ascending list, unless it is there.
pub fn insert_sorted(list: &mut Vec<usize>, x: usize)
    requires
        ascending(old(list)@),
    ensures
        ascending(final(list)@),
        final(list)@.to_set() == old(list)@.to_set().insert(x),
{
    let mut i: usize = 0;
    while i < list.len() && list[i] < x
        invariant
            i <= list.len(),
            list@ == old(list)@,
            forall|k: int| 0 <= k < i ==> list[k] < x,
        decreases list.len() - i,
    {
        i += 1;
    }
    if i < list.len() && list[i] == x {
        assert(list@.to_set() =~= list@.to_set().insert(x)) by {
            assert(list@[i as int] == x);
        }
        return ;
    }
    let ghost before = list@;
    list.insert(i, x);
    proof {
        let after = list@;
        assert(after == before.insert(i as int, x));
        assert forall|a: int, b: int| 0 <= a < b < after.len() implies after[a] < after[b] by {
            if a < i && b > i {
                assert(after[a] == before[a] && after[b] == before[b - 1]);
            } else if a < i && b < i {
                assert(after[a] == before[a] && after[b] == before[b]);
            } else if a > i {
                assert(after[a] == before[a - 1] && after[b] == before[b - 1]);
            } else if a == i {
                assert(after[b] == before[b - 1]);
            } else {
                assert(after[a] == before[a]);
            }
        }
        assert forall|v: usize| after.to_set().contains(v) <==> before.to_set().insert(x).contains(
            v,
        ) by {
            if after.contains(v) {
                let k = choose|k: int| 0 <= k < after.len() && after[k] == v;
                if k < i {
                    assert(before[k] == v);
                } else if k > i {
                    assert(before[k - 1] == v);
                }
            }
            if before.contains(v) {
                let k = choose|k: int| 0 <= k < before.len() && before[k] == v;
                if k < i {
                    assert(after[k] == v);
                } else {
                    assert(after[k + 1] == v);
                }
            }
            if v == x {
                assert(after[i as int] == v);
            }
        }
        assert(after.to_set() =~= before.to_set().insert(x));
    }
}

/// A copy of a list of positions.
pub fn copy_list(list: &Vec<usize>) -> (r: Vec<usize>)
    ensures
        r@ == list@,
{
    let mut r: Vec<usize> = Vec::new();
    let mut i: usize = 0;
    while i < list.len()
        invariant
            i <= list.len(),
            r@ == list@.take(i as int),
        decreases list.len() - i,
    {
        r.push(list[i]);
        assert(list@.take(i + 1) =~= list@.take(i as int).push(list[i as int]));
        i += 1;
    }
    assert(list@.take(i as int) =~= list@);
    r
}

/// The nodes of one replica.
#[derive(Debug)]
pub struct NodeStore<T> {
    nodes: Vec<DAGNode<T>>,
}

impl<T> View for NodeStore<T> {
    type V = Map<u64, Operation<T>>;

    /// The history that the store records, by identity.
    open spec fn view(&self) -> Map<u64, Operation<T>> {
        history(self.arena())
    }
}

impl<T> NodeStore<T> {
    /// The nodes of the store, by position.
    pub closed spec fn arena(&self) -> Seq<DAGNode<T>> {
        self.nodes@
    }

    /// The store is the store of a replica.
    pub open spec fn wf(&self) -> bool {
        well_formed(self.arena())
    }

    /// A store without nodes.
    pub fn new() -> (r: Self)
        ensures
            r.wf(),
            r.arena() == Seq::<DAGNode<T>>::empty(),
    {
        let r = NodeStore { nodes: Vec::new() };
        assert(edges(r.nodes@) =~= Seq::<Seq<usize>>::empty());
        assert forall|p: Seq<usize>| !#[trigger] is_cycle(edges(r.nodes@), p) by {
            if is_cycle(edges(r.nodes@), p) {
                assert(linked(edges(r.nodes@), p, 0));
            }
        }
        r
    }

    /// The store that holds the nodes of a well-formed arena.
    pub(crate) fn from_nodes(nodes: Vec<DAGNode<T>>) -> (r: Self)
        requires
            well_formed(nodes@),
        ensures
            r.wf(),
            r.arena() == nodes@,
    {
        NodeStore { nodes }
    }

    /// The number of nodes.
    pub fn len(&self) -> (r: usize)
        ensures
            r == self.arena().len(),
    {
        self.nodes.len()
    }

    /// The arena, for the traversal and the reducers.
    pub fn nodes(&self) -> (r: &Vec<DAGNode<T>>)
        ensures
            r@ == self.arena(),
    {
        &self.nodes
    }

    /// The node at position `index`, if the store has one there.
    pub fn lookup(&self, index: usize) -> (r: Option<&DAGNode<T>>)
        ensures
            match r {
                Some(node) => index < self.arena().len() && *node == self.arena()[index as int],
                None => index >= self.arena().len(),
            },
    {
        if index < self.nodes.len() {
            Some(&self.nodes[index])
        } else {
            None
        }
    }

    /// The position of the node with the identity `identity`, if the store
    /// holds one.
    pub fn find(&self, identity: u64) -> (r: Option<usize>)
        ensures
            match r {
                Some(i) => {
                    &&& i < self.arena().len()
                    &&& self.arena()[i as int].identity == identity
                    &&& forall|k: int| 0 <= k < i ==> self.arena()[k].identity != identity
                },
                None => !holds(self.arena(), identity),
            },
    {
        let mut i: usize = 0;
        while i < self.nodes.len()
            invariant
                i <= self.nodes.len(),
                forall|k: int| 0 <= k < i ==> self.nodes[k].identity != identity,
            decreases self.nodes.len() - i,
        {
            if self.nodes[i].identity == identity {
                return Some(i);
            }
            i += 1;
        }
        None
    }
}

/// A node that only names nodes of the arena can be added to an arena without
/// cycles, and there is still no cycle.
pub proof fn lemma_push_keeps_acyclic(g: Seq<Seq<usize>>, preds: Seq<usize>)
    requires
        closed(g),
        acyclic(g),
        forall|k: int| 0 <= k < preds.len() ==> #[trigger] preds[k] < g.len(),
    ensures
        closed(g.push(preds)),
        acyclic(g.push(preds)),
{
    let h = g.push(preds);
    assert forall|n: int, k: int| 0 <= n < h.len() && 0 <= k < h[n].len() implies (#[trigger] h[n][k])
        < g.len() by {
        if n < g.len() {
            assert(h[n] == g[n]);
        }
    }
    assert forall|p: Seq<usize>| !#[trigger] is_cycle(h, p) by {
        if is_cycle(h, p) {
            assert forall|i: int| 0 <= i < p.len() implies p[i] < g.len() by {
                let at = if i == 0 {
                    p.len() - 1
                } else {
                    i
                };
                assert(linked(h, p, at - 1));
                let list = h[p[at - 1] as int];
                let k = choose|k: int| 0 <= k < list.len() && list[k] == p[at];
                assert(h[p[at - 1] as int][k] < g.len());
            }
            assert forall|i: int| 0 <= i < p.len() - 1 implies #[trigger] linked(g, p, i) by {
                assert(linked(h, p, i));
                assert(h[p[i] as int] == g[p[i] as int]);
            }
            assert(is_cycle(g, p));
        }
    }
}

/// Two lists of the same positions name the same identities.
proof fn lemma_same_identities<T>(nodes: Seq<DAGNode<T>>, a: Seq<usize>, b: Seq<usize>)
    requires
        a.to_set() == b.to_set(),
    ensures
        identities_at(nodes, a) == identities_at(nodes, b),
{
    assert forall|q: u64| identities_at(nodes, a).contains(q) <==> identities_at(
        nodes,
        b,
    ).contains(q) by {
        if identities_at(nodes, a).contains(q) {
            let k = choose|k: int| 0 <= k < a.len() && nodes[#[trigger] a[k] as int].identity == q;
            assert(a.to_set().contains(a[k]));
            assert(b.contains(a[k]));
            let m = choose|m: int| 0 <= m < b.len() && b[m] == a[k];
            assert(nodes[b[m] as int].identity == q);
        }
        if identities_at(nodes, b).contains(q) {
            let k = choose|k: int| 0 <= k < b.len() && nodes[#[trigger] b[k] as int].identity == q;
            assert(b.to_set().contains(b[k]));
            assert(a.contains(b[k]));
            let m = choose|m: int| 0 <= m < a.len() && a[m] == b[k];
            assert(nodes[a[m] as int].identity == q);
        }
    }
    assert(identities_at(nodes, a) =~= identities_at(nodes, b));
}

/// In an arena whose identities differ, the position of a node is the
/// position of its identity.
pub proof fn lemma_position<T>(nodes: Seq<DAGNode<T>>, i: int)
    requires
        distinct_identities(nodes),
        0 <= i < nodes.len(),
    ensures
        holds(nodes, nodes[i].identity),
        position(nodes, nodes[i].identity) == i,
{
}

/// A new node adds its operation to the history and leaves the others as
/// they are.
proof fn lemma_history_push<T>(before: Seq<DAGNode<T>>, node: DAGNode<T>)
    requires
        closed(edges(before)),
        distinct_identities(before),
        !holds(before, node.identity),
        forall|k: int|
            0 <= k < node.predecessors@.len() ==> #[trigger] node.predecessors@[k] < before.len(),
    ensures
        history(before.push(node)) == history(before).insert(
            node.identity,
            Operation {
                payload: node.current_data,
                predecessors: identities_at(before, node.predecessors@),
            },
        ),
{
    let after = before.push(node);
    let last = before.len() as int;
    let added = Operation {
        payload: node.current_data,
        predecessors: identities_at(before, node.predecessors@),
    };
    let want = history(before).insert(node.identity, added);
    assert(distinct_identities(after)) by {
        assert forall|i: int, j: int|
            0 <= i < after.len() && 0 <= j < after.len() && i != j implies #[trigger] after[i].identity
            != #[trigger] after[j].identity by {
            if i < last {
                assert(after[i] == before[i]);
            }
            if j < last {
                assert(after[j] == before[j]);
            }
        }
    }
    assert forall|i: int| 0 <= i < after.len() implies named(after, i) == identities_at(
        before,
        #[trigger] after[i].predecessors@,
    ) by {
        let list = after[i].predecessors@;
        assert forall|k: int| 0 <= k < list.len() implies #[trigger] list[k] < before.len() by {
            if i < last {
                assert(edges(before)[i][k] < before.len());
            }
        }
        assert forall|q: u64| named(after, i).contains(q) <==> identities_at(
            before,
            list,
        ).contains(q) by {
            if named(after, i).contains(q) {
                let k = choose|k: int|
                    0 <= k < list.len() && after[#[trigger] list[k] as int].identity == q;
                assert(before[list[k] as int].identity == q);
            }
            if identities_at(before, list).contains(q) {
                let k = choose|k: int|
                    0 <= k < list.len() && before[#[trigger] list[k] as int].identity == q;
                assert(after[list[k] as int].identity == q);
            }
        }
        assert(named(after, i) =~= identities_at(before, list));
    }
    assert forall|id: u64| history(after).dom().contains(id) <==> want.dom().contains(id) by {
        if holds(after, id) {
            let i = position(after, id);
            if i < last {
                assert(before[i].identity == id);
            }
        }
        if holds(before, id) {
            let i = position(before, id);
            assert(after[i].identity == id);
        }
        if id == node.identity {
            assert(after[last].identity == id);
        }
    }
    assert forall|id: u64| history(after).dom().contains(id) implies #[trigger] history(after)[id]
        == want[id] by {
        let i = position(after, id);
        if id == node.identity {
            lemma_position(after, last);
        } else {
            assert(after[i] == before[i]);
            lemma_position(before, i);
        }
    }
    assert(history(after) =~= want);
}

impl<T> NodeStore<T> {
    /// A store is held in memory: its positions can be counted.
    pub proof fn lemma_arena_fits(&self)
        ensures
            self.arena().len() <= usize::MAX,
    {
        assert(self.nodes.len() == self.nodes@.len());
    }

    /// Records a new operation that depends on the nodes at `predecessor_refs`,
    /// and gives its position.
    ///
    /// Fails with `UnknownPredecessor`, and records nothing, if one of
    /// `predecessor_refs` is not the position of a node; otherwise with
    /// `IdentityCollision`, if the store has a node with this identity.
    pub fn insert(&mut self, identity: u64, payload: T, predecessor_refs: Vec<usize>) -> (r:
        Result<usize, DagError>)
        requires
            old(self).wf(),
        ensures
            final(self).wf(),
            r is Ok <==> !holds(old(self).arena(), identity) && forall|k: int|
                0 <= k < predecessor_refs.len() ==> predecessor_refs[k] < old(self).arena().len(),
            r is Ok ==> final(self)@ == old(self)@.insert(
                identity,
                Operation {
                    payload,
                    predecessors: identities_at(old(self).arena(), predecessor_refs@),
                },
            ),
            match r {
                Ok(i) => {
                    &&& i == old(self).arena().len()
                    &&& final(self).arena().len() == i + 1
                    &&& final(self).arena().drop_last() == old(self).arena()
                    &&& final(self).arena()[i as int].identity == identity
                    &&& final(self).arena()[i as int].current_data == payload
                    &&& ascending(final(self).arena()[i as int].predecessors@)
                    &&& final(self).arena()[i as int].predecessors@.to_set()
                        == predecessor_refs@.to_set()
                },
                Err(e) => {
                    &&& final(self).arena() == old(self).arena()
                    &&& e == if holds(old(self).arena(), identity) && forall|k: int|
                        0 <= k < predecessor_refs.len() ==> predecessor_refs[k] < old(
                            self,
                        ).arena().len() {
                        DagError::IdentityCollision
                    } else {
                        DagError::UnknownPredecessor
                    }
                },
            },
    {
        let count = self.nodes.len();
        let mut predecessors: Vec<usize> = Vec::new();
        let mut k: usize = 0;
        assert(predecessors@.to_set() =~= predecessor_refs@.take(0).to_set());
        while k < predecessor_refs.len()
            invariant
                k <= predecessor_refs.len(),
                count == self.nodes.len(),
                self.nodes@ == old(self).nodes@,
                self.wf(),
                ascending(predecessors@),
                predecessors@.to_set() == predecessor_refs@.take(k as int).to_set(),
                forall|j: int| 0 <= j < k ==> predecessor_refs[j] < count,
            decreases predecessor_refs.len() - k,
        {
            let p = predecessor_refs[k];
            if p >= count {
                return Err(DagError::UnknownPredecessor);
            }
            insert_sorted(&mut predecessors, p);
            proof {
                let front = predecessor_refs@.take(k as int);
                assert(predecessor_refs@.take(k + 1) =~= front.push(p));
                crate::order::lemma_push_to_set(front, p);
            }
            k += 1;
        }
        assert(predecessor_refs@.take(k as int) =~= predecessor_refs@);
        if self.find(identity).is_some() {
            return Err(DagError::IdentityCollision);
        }
        let ghost before = self.nodes@;
        let ghost list = predecessors@;
        self.nodes.push(DAGNode { identity, predecessors, current_data: payload });
        proof {
            let after = self.nodes@;
            assert(after.drop_last() =~= before);
            assert(edges(after) =~= edges(before).push(list));
            assert forall|j: int| 0 <= j < list.len() implies #[trigger] list[j] < edges(
                before,
            ).len() by {
                assert(list.to_set().contains(list[j]));
                assert(predecessor_refs@.contains(list[j]));
            }
            lemma_push_keeps_acyclic(edges(before), list);
            lemma_history_push(before, after[count as int]);
            lemma_same_identities(before, list, predecessor_refs@);
            assert forall|i: int| 0 <= i < after.len() implies ascending(
                #[trigger] after[i].predecessors@,
            ) by {
                if i < before.len() {
                    assert(after[i] == before[i]);
                }
            }
            assert forall|i: int, j: int|
                0 <= i < after.len() && 0 <= j < after.len() && i != j implies #[trigger] after[i].identity
                != #[trigger] after[j].identity by {
                if i < before.len() {
                    assert(after[i] == before[i]);
                }
                if j < before.len() {
                    assert(after[j] == before[j]);
                }
            }
        }
        Ok(count)
    }

    /// The nodes that name no predecessor, in ascending order.
    pub fn sources(&self) -> (r: Vec<usize>)
        ensures
            ascending(r@),
            forall|v: usize| r@.contains(v) <==> is_source(edges(self.arena()), v),
    {
        let mut r: Vec<usize> = Vec::new();
        let mut i: usize = 0;
        let ghost g = edges(self.nodes@);
        while i < self.nodes.len()
            invariant
                i <= self.nodes.len(),
                g == edges(self.nodes@),
                ascending(r@),
                forall|k: int| 0 <= k < r.len() ==> r[k] < i,
                forall|v: usize| r@.contains(v) <==> v < i && is_source(g, v),
            decreases self.nodes.len() - i,
        {
            if self.nodes[i].predecessors.len() == 0 {
                let ghost before = r@;
                r.push(i);
                proof {
                    crate::order::lemma_push_to_set(before, i);
                    assert forall|v: usize| r@.contains(v) <==> v < i + 1 && is_source(g, v) by {
                        assert(r@.to_set().contains(v) <==> before.to_set().insert(i).contains(v));
                    }
                }
            }
            i += 1;
        }
        r
    }

    /// The nodes that no node names as a predecessor, in ascending order: the
    /// heads of the history, from which a traversal reaches every node.
    pub fn roots(&self) -> (r: Vec<usize>)
        requires
            self.wf(),
        ensures
            r@ == root_list(edges(self.arena())),
            ascending(r@),
            forall|v: usize| r@.contains(v) <==> is_root(edges(self.arena()), v),
    {
        let count = self.nodes.len();
        let ghost g = edges(self.nodes@);
        let mut is_named: Vec<bool> = Vec::new();
        let mut i: usize = 0;
        while i < count
            invariant
                i <= count,
                is_named.len() == i,
                forall|k: int| 0 <= k < i ==> !is_named[k],
            decreases count - i,
        {
            is_named.push(false);
            i += 1;
        }
        let mut n: usize = 0;
        while n < count
            invariant
                n <= count,
                count == self.nodes.len(),
                g == edges(self.nodes@),
                closed(g),
                is_named.len() == count,
                forall|v: int|
                    0 <= v < count ==> (#[trigger] is_named[v] <==> exists|m: usize|
                        m < n && #[trigger] is_predecessor(g, m, v as usize)),
            decreases count - n,
        {
            let mut k: usize = 0;
            while k < self.nodes[n].predecessors.len()
                invariant
                    n < count,
                    count == self.nodes.len(),
                    g == edges(self.nodes@),
                    closed(g),
                    is_named.len() == count,
                    k <= self.nodes[n as int].predecessors.len(),
                    forall|v: int|
                        0 <= v < count ==> (#[trigger] is_named[v] <==> (exists|m: usize|
                            m < n && #[trigger] is_predecessor(g, m, v as usize)) || exists|j: int|
                            0 <= j < k && #[trigger] g[n as int][j] == v),
                decreases self.nodes[n as int].predecessors.len() - k,
            {
                let p = self.nodes[n].predecessors[k];
                assert(g[n as int][k as int] == p);
                is_named.set(p, true);
                k += 1;
            }
            proof {
                assert forall|v: int| 0 <= v < count implies (#[trigger] is_named[v] <==> exists|
                    m: usize,
                |
                    m < n + 1 && #[trigger] is_predecessor(g, m, v as usize)) by {
                    if is_named[v] {
                        if exists|j: int| 0 <= j < k && #[trigger] g[n as int][j] == v {
                            let j = choose|j: int| 0 <= j < k && #[trigger] g[n as int][j] == v;
                            assert(is_predecessor(g, n, v as usize));
                        }
                    }
                    if exists|m: usize| m < n + 1 && #[trigger] is_predecessor(g, m, v as usize) {
                        let m = choose|m: usize|
                            m < n + 1 && #[trigger] is_predecessor(g, m, v as usize);
                        if m == n {
                            let j = choose|j: int|
                                0 <= j < g[n as int].len() && g[n as int][j] == v as usize;
                            assert(g[n as int][j] == v);
                        }
                    }
                }
            }
            n += 1;
        }
        let mut r: Vec<usize> = Vec::new();
        let mut v: usize = 0;
        while v < count
            invariant
                v <= count,
                count == g.len(),
                is_named.len() == count,
                forall|w: int|
                    0 <= w < count ==> (#[trigger] is_named[w] <==> exists|m: usize|
                        m < count && #[trigger] is_predecessor(g, m, w as usize)),
                ascending(r@),
                forall|k: int| 0 <= k < r.len() ==> r[k] < v,
                forall|w: usize| r@.contains(w) <==> w < v && is_root(g, w),
            decreases count - v,
        {
            if !is_named[v] {
                let ghost before = r@;
                r.push(v);
                proof {
                    crate::order::lemma_push_to_set(before, v);
                    let at = v as int;
                    assert(!is_named[at]);
                    assert(at as usize == v);
                    assert forall|m: usize| !#[trigger] is_predecessor(g, m, v) by {
                        if is_predecessor(g, m, v) {
                            assert(m < count && is_predecessor(g, m, at as usize));
                        }
                    }
                    assert forall|w: usize| r@.contains(w) <==> w < v + 1 && is_root(g, w) by {
                        assert(r@.to_set().contains(w) <==> before.to_set().insert(v).contains(w));
                    }
                }
            } else {
                proof {
                    let m = choose|m: usize| m < count && #[trigger] is_predecessor(g, m, v);
                    assert(!is_root(g, v));
                }
            }
            v += 1;
        }
        proof {
            lemma_root_list(g, r@);
        }
        r
    }
}

impl<T> NodeStore<T> {
    /// The whole history in replay order: every node of the store once, after
    /// all of its predecessors, as the traversal from the roots gives it.
    pub fn ordered_history(&self) -> (r: Vec<usize>)
        requires
            self.wf(),
        ensures
            topological_order(edges(self.arena()), root_list(edges(self.arena()))).error is None,
            r@ == topological_order(edges(self.arena()), root_list(edges(self.arena()))).order,
            r@.no_duplicates(),
            r@.len() == self.arena().len(),
            forall|v: usize| r@.contains(v) <==> v < self.arena().len(),
            respects(edges(self.arena()), r@),
    {
        let roots = self.roots();
        proof {
            self.lemma_arena_fits();
            law_replay_from_roots_is_complete(edges(self.arena()), roots@);
        }
        match topological_sort(&self.nodes, roots) {
            Ok(order) => order,
            Err(_) => unreached(),
        }
    }
}

} // verus!
