//! Linearising a history: depth first, every node after all of its predecessors.
//!
//! The order is defined by the recursive functions [`visit`] and
//! [`visit_predecessors`]; the executable traversal walks the same order with
//! an explicit stack, so its depth is not bounded by the call stack.

use crate::graph::{cycle_reachable, dangling_reachable, is_replay_order, reachable_set};
use crate::node::{edges, DAGNode, DagError};
use crate::order_laws::{law_order_exists, law_order_is_permutation_of_reachable};
use std::collections::BTreeSet;
use vstd::prelude::*;

verus! {

broadcast use {vstd::std_specs::btree::group_btree_axioms, vstd::laws_cmp::group_laws_cmp};

/// What a traversal has produced: the nodes emitted so far, and the error that
/// stopped it, if one did.
pub struct Traversal {
    pub order: Seq<usize>,
    pub error: Option<DagError>,
}

/// How many of the positions below `n` are not in `taken`.
pub open spec fn free_count(n: nat, taken: Set<usize>) -> nat
    decreases n,
{
    if n == 0 {
        0
    } else if taken.contains((n - 1) as usize) {
        free_count((n - 1) as nat, taken)
    } else {
        free_count((n - 1) as nat, taken) + 1
    }
}

/// Taking one more free position lowers the count of free positions.
pub proof fn lemma_free_count_insert(n: nat, taken: Set<usize>, v: usize)
    ensures
        free_count(n, taken.insert(v)) <= free_count(n, taken),
        v < n && !taken.contains(v) ==> free_count(n, taken.insert(v)) < free_count(n, taken),
    decreases n,
{
    if n > 0 {
        lemma_free_count_insert((n - 1) as nat, taken, v);
    }
}

/// Visiting `n`: nothing if it was emitted before; otherwise its predecessors
/// in stored order, then `n` itself.
///
/// `out` holds the nodes emitted so far (the permanent marks), `path` the nodes
/// whose visit is under way (the temporary marks). A position outside the
/// arena stops the traversal with `UnknownPredecessor`, a node that is met
/// again while its own visit is under way with `CycleDetected`.
pub open spec fn visit(g: Seq<Seq<usize>>, n: usize, out: Seq<usize>, path: Seq<usize>) -> Traversal
    decreases free_count(g.len(), path.to_set()), 0nat, 0nat,
{
    if n >= g.len() {
        Traversal { order: out, error: Some(DagError::UnknownPredecessor) }
    } else if out.contains(n) {
        Traversal { order: out, error: None }
    } else if path.contains(n) {
        Traversal { order: out, error: Some(DagError::CycleDetected) }
    } else {
        proof {
            lemma_free_count_insert(g.len(), path.to_set(), n);
            assert(path.push(n).to_set() =~= path.to_set().insert(n)) by {
                lemma_push_to_set(path, n);
            }
        }
        let below = visit_predecessors(g, n, 0, out, path.push(n));
        if below.error is Some {
            below
        } else {
            Traversal { order: below.order.push(n), error: None }
        }
    }
}

/// Visiting the predecessors of `n` from the `k`-th on, in stored order.
pub open spec fn visit_predecessors(
    g: Seq<Seq<usize>>,
    n: usize,
    k: nat,
    out: Seq<usize>,
    path: Seq<usize>,
) -> Traversal
    decreases free_count(g.len(), path.to_set()), 1nat, g[n as int].len() - k,
{
    if n >= g.len() || k >= g[n as int].len() {
        Traversal { order: out, error: None }
    } else {
        let first = visit(g, g[n as int][k as int], out, path);
        if first.error is Some {
            first
        } else {
            visit_predecessors(g, n, k + 1, first.order, path)
        }
    }
}

/// The members of a sequence with one more element at its end.
pub proof fn lemma_push_to_set(s: Seq<usize>, v: usize)
    ensures
        s.push(v).to_set() =~= s.to_set().insert(v),
{
    assert forall|x: usize| s.push(v).to_set().contains(x) <==> s.to_set().insert(v).contains(
        x,
    ) by {
        if s.push(v).contains(x) {
            let i = choose|i: int| 0 <= i < s.push(v).len() && s.push(v)[i] == x;
            if i < s.len() {
                assert(s[i] == x);
            }
        }
        if s.contains(x) {
            let i = choose|i: int| 0 <= i < s.len() && s[i] == x;
            assert(s.push(v)[i] == x);
        }
        if x == v {
            assert(s.push(v)[s.len() as int] == x);
        }
    }
}

/// Visiting the starting nodes as a stack: the last one first.
pub open spec fn visit_all(g: Seq<Seq<usize>>, s: Seq<usize>, out: Seq<usize>) -> Traversal
    decreases s.len(),
{
    if s.len() == 0 {
        Traversal { order: out, error: None }
    } else {
        let first = visit(g, s.last(), out, Seq::empty());
        if first.error is Some {
            first
        } else {
            visit_all(g, s.drop_last(), first.order)
        }
    }
}

/// The order in which the nodes reachable from `s` are replayed.
pub open spec fn topological_order(g: Seq<Seq<usize>>, s: Seq<usize>) -> Traversal {
    visit_all(g, s, Seq::empty())
}

/// What is left of a visit that was interrupted: the frames of `path`, from
/// the last one down, each with the position `pos` of its next predecessor.
spec fn resume(
    g: Seq<Seq<usize>>,
    path: Seq<usize>,
    pos: Seq<usize>,
    out: Seq<usize>,
) -> Traversal
    decreases path.len(),
{
    if path.len() == 0 || pos.len() != path.len() {
        Traversal { order: out, error: None }
    } else {
        let rest = visit_predecessors(g, path.last(), pos.last() as nat, out, path);
        if rest.error is Some {
            rest
        } else {
            resume(g, path.drop_last(), pos.drop_last(), rest.order.push(path.last()))
        }
    }
}

proof fn lemma_resume_start(g: Seq<Seq<usize>>, n: usize, out: Seq<usize>)
    requires
        n < g.len(),
        !out.contains(n),
    ensures
        resume(g, seq![n], seq![0usize], out) == visit(g, n, out, Seq::empty()),
{
    let path = seq![n];
    assert(path =~= Seq::<usize>::empty().push(n));
    assert(path.drop_last() =~= Seq::<usize>::empty());
    let rest = visit_predecessors(g, n, 0, out, path);
    if rest.error is None {
        assert(resume(g, path.drop_last(), seq![0usize].drop_last(), rest.order.push(n))
            == Traversal { order: rest.order.push(n), error: None });
    }
}

/// The next predecessor of the top frame is outside the arena: the visit fails.
proof fn lemma_resume_unknown(
    g: Seq<Seq<usize>>,
    path: Seq<usize>,
    pos: Seq<usize>,
    out: Seq<usize>,
)
    requires
        path.len() > 0,
        pos.len() == path.len(),
        path.last() < g.len(),
        pos.last() < g[path.last() as int].len(),
        g[path.last() as int][pos.last() as int] >= g.len(),
    ensures
        resume(g, path, pos, out) == (Traversal {
            order: out,
            error: Some(DagError::UnknownPredecessor),
        }),
{
    let m = g[path.last() as int][pos.last() as int];
    let bad = Traversal { order: out, error: Some(DagError::UnknownPredecessor) };
    assert(visit(g, m, out, path) == bad);
    assert(visit_predecessors(g, path.last(), pos.last() as nat, out, path) == bad);
    assert(resume(g, path, pos, out) == bad);
}

/// The next predecessor of the top frame has a frame of its own: the visit fails.
proof fn lemma_resume_cycle(
    g: Seq<Seq<usize>>,
    path: Seq<usize>,
    pos: Seq<usize>,
    out: Seq<usize>,
)
    requires
        path.len() > 0,
        pos.len() == path.len(),
        path.last() < g.len(),
        pos.last() < g[path.last() as int].len(),
        g[path.last() as int][pos.last() as int] < g.len(),
        !out.contains(g[path.last() as int][pos.last() as int]),
        path.contains(g[path.last() as int][pos.last() as int]),
    ensures
        resume(g, path, pos, out) == (Traversal { order: out, error: Some(DagError::CycleDetected) }),
{
    let m = g[path.last() as int][pos.last() as int];
    let bad = Traversal { order: out, error: Some(DagError::CycleDetected) };
    assert(visit(g, m, out, path) == bad);
    assert(visit_predecessors(g, path.last(), pos.last() as nat, out, path) == bad);
}

/// The next predecessor of the top frame was emitted before: the frame moves on.
proof fn lemma_resume_skip(
    g: Seq<Seq<usize>>,
    path: Seq<usize>,
    pos: Seq<usize>,
    out: Seq<usize>,
)
    requires
        path.len() > 0,
        pos.len() == path.len(),
        path.last() < g.len(),
        pos.last() < g[path.last() as int].len(),
        g[path.last() as int][pos.last() as int] < g.len(),
        out.contains(g[path.last() as int][pos.last() as int]),
        pos.last() < usize::MAX,
    ensures
        resume(g, path, pos.update(pos.len() - 1, (pos.last() + 1) as usize), out) == resume(
            g,
            path,
            pos,
            out,
        ),
{
    let m = g[path.last() as int][pos.last() as int];
    let moved = pos.update(pos.len() - 1, (pos.last() + 1) as usize);
    assert(moved.drop_last() =~= pos.drop_last());
    assert(moved.last() == pos.last() + 1);
    assert(visit(g, m, out, path) == Traversal { order: out, error: None });
    assert(visit_predecessors(g, path.last(), pos.last() as nat, out, path)
        == visit_predecessors(g, path.last(), moved.last() as nat, out, path));
}

/// The next predecessor of the top frame is new: it gets a frame of its own.
proof fn lemma_resume_push(
    g: Seq<Seq<usize>>,
    path: Seq<usize>,
    pos: Seq<usize>,
    out: Seq<usize>,
)
    requires
        path.len() > 0,
        pos.len() == path.len(),
        path.last() < g.len(),
        pos.last() < g[path.last() as int].len(),
        g[path.last() as int][pos.last() as int] < g.len(),
        !out.contains(g[path.last() as int][pos.last() as int]),
        !path.contains(g[path.last() as int][pos.last() as int]),
        pos.last() < usize::MAX,
    ensures
        resume(
            g,
            path.push(g[path.last() as int][pos.last() as int]),
            pos.update(pos.len() - 1, (pos.last() + 1) as usize).push(0usize),
            out,
        ) == resume(g, path, pos, out),
{
    let m = g[path.last() as int][pos.last() as int];
    let moved = pos.update(pos.len() - 1, (pos.last() + 1) as usize);
    assert(moved.drop_last() =~= pos.drop_last());
    assert(moved.last() == pos.last() + 1);
    assert(path.push(m).drop_last() =~= path);
    assert(moved.push(0usize).drop_last() =~= moved);
    let below = visit_predecessors(g, m, 0, out, path.push(m));
    assert(visit(g, m, out, path) == if below.error is Some {
        below
    } else {
        Traversal { order: below.order.push(m), error: None }
    });
    assert(visit_predecessors(g, path.last(), pos.last() as nat, out, path) == if below.error is Some {
        below
    } else {
        visit_predecessors(g, path.last(), moved.last() as nat, below.order.push(m), path)
    });
    assert(resume(g, path.push(m), moved.push(0usize), out) == if below.error is Some {
        below
    } else {
        resume(g, path, moved, below.order.push(m))
    });
}

/// The top frame has no predecessor left: its node is emitted.
proof fn lemma_resume_pop(g: Seq<Seq<usize>>, path: Seq<usize>, pos: Seq<usize>, out: Seq<usize>)
    requires
        path.len() > 0,
        pos.len() == path.len(),
        path.last() < g.len(),
        pos.last() >= g[path.last() as int].len(),
    ensures
        resume(g, path.drop_last(), pos.drop_last(), out.push(path.last())) == resume(
            g,
            path,
            pos,
            out,
        ),
{
}

/// The result of a traversal as the executable functions report it.
pub open spec fn outcome(t: Traversal) -> Result<(), DagError> {
    match t.error {
        None => Ok(()),
        Some(e) => Err(e),
    }
}

/// Visits `n`: emits into `l`, after all of their predecessors, the nodes
/// reachable from `n` that `l` does not hold yet, `n` last.
///
/// `permanently_marked_nodes` is the set of the nodes in `l`. The traversal
/// keeps its own stack, so a long causal chain costs heap, not call depth.
pub fn topological_sort_visit<T>(
    nodes: &Vec<DAGNode<T>>,
    n: usize,
    l: &mut Vec<usize>,
    permanently_marked_nodes: &mut BTreeSet<usize>,
) -> (r: Result<(), DagError>)
    requires
        old(permanently_marked_nodes)@ == old(l)@.to_set(),
    ensures
        final(l)@ == visit(edges(nodes@), n, old(l)@, Seq::empty()).order,
        final(permanently_marked_nodes)@ == final(l)@.to_set(),
        r == outcome(visit(edges(nodes@), n, old(l)@, Seq::empty())),
{
    let ghost g = edges(nodes@);
    let ghost goal = visit(g, n, l@, Seq::empty());
    if n >= nodes.len() {
        return Err(DagError::UnknownPredecessor);
    }
    if permanently_marked_nodes.contains(&n) {
        return Ok(());
    }
    let mut path: Vec<usize> = Vec::new();
    let mut pos: Vec<usize> = Vec::new();
    let mut on_path: BTreeSet<usize> = BTreeSet::new();
    path.push(n);
    pos.push(0);
    on_path.insert(n);
    proof {
        lemma_resume_start(g, n, l@);
        assert(path@ =~= seq![n]);
        assert(pos@ =~= seq![0usize]);
        assert(on_path@ =~= path@.to_set()) by {
            lemma_push_to_set(Seq::empty(), n);
            assert(Seq::<usize>::empty().push(n) =~= path@);
            assert(Seq::<usize>::empty().to_set() =~= Set::<usize>::empty());
        }
    }
    while path.len() > 0
        invariant
            g == edges(nodes@),
            goal == visit(g, n, old(l)@, Seq::empty()),
            pos.len() == path.len(),
            resume(g, path@, pos@, l@) == goal,
            permanently_marked_nodes@ == l@.to_set(),
            on_path@ == path@.to_set(),
            path@.no_duplicates(),
            forall|i: int| 0 <= i < path.len() ==> path[i] < nodes.len(),
            forall|i: int| 0 <= i < path.len() ==> !l@.contains(#[trigger] path[i]),
            forall|i: int| 0 <= i < path.len() ==> pos[i] <= nodes[path[i] as int].predecessors.len(),
        decreases
            free_count(nodes.len() as nat, l@.to_set()),
            free_count(nodes.len() as nat, l@.to_set().union(path@.to_set())),
            if path.len() > 0 {
                nodes[path@.last() as int].predecessors.len() - pos@.last()
            } else {
                0
            },
    {
        let top: usize = path.len() - 1;
        let cur: usize = path[top];
        let k: usize = pos[top];
        assert(path@.last() == cur && pos@.last() == k);
        assert(g[cur as int] == nodes[cur as int].predecessors@);
        if k < nodes[cur].predecessors.len() {
            let m: usize = nodes[cur].predecessors[k];
            assert(g[cur as int][k as int] == m);
            if m >= nodes.len() {
                proof {
                    lemma_resume_unknown(g, path@, pos@, l@);
                }
                return Err(DagError::UnknownPredecessor);
            }
            if permanently_marked_nodes.contains(&m) {
                proof {
                    lemma_resume_skip(g, path@, pos@, l@);
                }
                pos.set(top, k + 1);
            } else if on_path.contains(&m) {
                proof {
                    lemma_resume_cycle(g, path@, pos@, l@);
                }
                return Err(DagError::CycleDetected);
            } else {
                proof {
                    lemma_resume_push(g, path@, pos@, l@);
                    lemma_push_to_set(path@, m);
                    lemma_free_count_insert(
                        nodes.len() as nat,
                        l@.to_set().union(path@.to_set()),
                        m,
                    );
                    assert(l@.to_set().union(path@.push(m).to_set()) =~= l@.to_set().union(
                        path@.to_set(),
                    ).insert(m));
                }
                pos.set(top, k + 1);
                path.push(m);
                pos.push(0);
                on_path.insert(m);
            }
        } else {
            proof {
                lemma_resume_pop(g, path@, pos@, l@);
                lemma_push_to_set(l@, cur);
                lemma_free_count_insert(nodes.len() as nat, l@.to_set(), cur);
                assert(path@.drop_last().to_set() =~= path@.to_set().remove(cur)) by {
                    lemma_drop_last_to_set(path@);
                }
            }
            path.pop();
            pos.pop();
            on_path.remove(&cur);
            permanently_marked_nodes.insert(cur);
            l.push(cur);
        }
    }
    assert(resume(g, path@, pos@, l@) == Traversal { order: l@, error: None });
    Ok(())
}

/// The members of a duplicate-free sequence without its last element.
proof fn lemma_drop_last_to_set(s: Seq<usize>)
    requires
        s.len() > 0,
        s.no_duplicates(),
    ensures
        s.drop_last().to_set() =~= s.to_set().remove(s.last()),
{
    assert forall|x: usize| s.drop_last().to_set().contains(x) <==> s.to_set().remove(
        s.last(),
    ).contains(x) by {
        if s.drop_last().contains(x) {
            let i = choose|i: int| 0 <= i < s.drop_last().len() && s.drop_last()[i] == x;
            assert(s[i] == x);
        }
        if s.contains(x) && x != s.last() {
            let i = choose|i: int| 0 <= i < s.len() && s[i] == x;
            assert(s.drop_last()[i] == x);
        }
    }
}

/// What [`topological_sort`] gives for a traversal that ended as `t`.
pub open spec fn reported(t: Traversal, r: Result<Vec<usize>, DagError>) -> bool {
    match r {
        Ok(l) => t.error is None && l@ == t.order,
        Err(e) => t.error == Some(e),
    }
}

/// Replays the history from the starting nodes `s`: every node reachable from
/// them, once, after all of its predecessors.
///
/// `s` is taken as a stack, its last node is visited first, and the
/// predecessors of a node are visited in stored order: the result is the value
/// of [`topological_order`] on the same arguments, so that two calls on the
/// same arena and the same starting nodes give the same order. Fails with
/// `UnknownPredecessor` if the traversal meets a position outside the arena,
/// with `CycleDetected` if it meets a node whose visit is under way, whichever
/// it meets first.
pub fn topological_sort<T>(nodes: &Vec<DAGNode<T>>, s: Vec<usize>) -> (r: Result<
    Vec<usize>,
    DagError,
>)
    ensures
        reported(topological_order(edges(nodes@), s@), r),
        r is Ok <==> !cycle_reachable(edges(nodes@), s@) && !dangling_reachable(edges(nodes@), s@),
        match r {
            Ok(l) => {
                &&& is_replay_order(edges(nodes@), l@)
                &&& l@.to_set() == reachable_set(edges(nodes@), s@)
            },
            Err(e) => {
                &&& e == DagError::CycleDetected ==> cycle_reachable(edges(nodes@), s@)
                &&& e == DagError::UnknownPredecessor ==> dangling_reachable(edges(nodes@), s@)
                &&& e == DagError::CycleDetected || e == DagError::UnknownPredecessor
            },
        },
{
    let ghost g = edges(nodes@);
    let mut stack = s;
    let mut l: Vec<usize> = Vec::new();
    let mut permanently_marked_nodes: BTreeSet<usize> = BTreeSet::new();
    assert(l@.to_set() =~= Set::<usize>::empty());
    while stack.len() > 0
        invariant
            g == edges(nodes@),
            visit_all(g, stack@, l@) == topological_order(g, s@),
            permanently_marked_nodes@ == l@.to_set(),
        decreases stack.len(),
    {
        let ghost before = stack@;
        let val = stack.pop().unwrap();
        assert(stack@ =~= before.drop_last());
        match topological_sort_visit(nodes, val, &mut l, &mut permanently_marked_nodes) {
            Ok(()) => {},
            Err(e) => {
                proof {
                    law_order_exists(g, s@);
                }
                return Err(e);
            },
        }
    }
    proof {
        law_order_exists(g, s@);
        law_order_is_permutation_of_reachable(g, s@);
    }
    Ok(l)
}

} // verus!
