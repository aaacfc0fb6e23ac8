//! What holds of every replay order that a traversal produces.

use crate::graph::{
    acyclic, closed, cycle_reachable, dangling_reachable, is_chain, is_cycle, is_predecessor,
    is_replay_order, is_root, lemma_closed_reach, lemma_reaches_self, lemma_reaches_step, linked,
    occurs_before, reachable, reachable_set, reaches,
};
use crate::node::DagError;
use crate::order::{
    free_count, lemma_free_count_insert, lemma_push_to_set, reported, topological_order, visit,
    visit_all, visit_predecessors, Traversal,
};
use vstd::prelude::*;

verus! {

/// What a traversal from `root` keeps, whether it ends well or not: it only
/// adds to `out`, what it has emitted is a replay order, what it adds is
/// reached from `root` and not under way, and an error has its cause in the
/// arena.
pub open spec fn grows(
    g: Seq<Seq<usize>>,
    root: usize,
    out: Seq<usize>,
    path: Seq<usize>,
    t: Traversal,
) -> bool {
    &&& out.len() <= t.order.len()
    &&& forall|i: int| 0 <= i < out.len() ==> #[trigger] t.order[i] == out[i]
    &&& is_replay_order(g, t.order)
    &&& forall|i: int|
        out.len() <= i < t.order.len() ==> !path.contains(#[trigger] t.order[i]) && reaches(
            g,
            root,
            t.order[i],
        )
    &&& t.error == Some(DagError::CycleDetected) ==> exists|c: Seq<usize>| #[trigger]
        is_cycle(g, c) && reaches(g, root, c[0])
    &&& t.error == Some(DagError::UnknownPredecessor) ==> exists|m: usize| #[trigger]
        reaches(g, root, m) && m >= g.len()
    &&& t.error is None || t.error == Some(DagError::CycleDetected) || t.error == Some(
        DagError::UnknownPredecessor,
    )
}

/// The nodes under way walk predecessor edges, and none of them is emitted.
pub open spec fn under_way(g: Seq<Seq<usize>>, out: Seq<usize>, path: Seq<usize>) -> bool {
    &&& forall|i: int| 0 <= i < path.len() - 1 ==> #[trigger] linked(g, path, i)
    &&& forall|i: int| 0 <= i < path.len() ==> !out.contains(#[trigger] path[i])
}

proof fn lemma_contains_prefix(out: Seq<usize>, t: Seq<usize>, v: usize)
    requires
        out.len() <= t.len(),
        forall|i: int| 0 <= i < out.len() ==> #[trigger] t[i] == out[i],
        out.contains(v),
    ensures
        t.contains(v),
{
    let i = choose|i: int| 0 <= i < out.len() && out[i] == v;
    assert(t[i] == v);
}

proof fn lemma_visit(g: Seq<Seq<usize>>, n: usize, out: Seq<usize>, path: Seq<usize>)
    requires
        is_replay_order(g, out),
        under_way(g, out, path),
        path.len() > 0 ==> is_predecessor(g, path.last(), n),
    ensures
        grows(g, n, out, path, visit(g, n, out, path)),
        visit(g, n, out, path).error is None ==> visit(g, n, out, path).order.contains(n),
    decreases free_count(g.len(), path.to_set()), 0nat, 0nat,
{
    let t = visit(g, n, out, path);
    lemma_reaches_self(g, n);
    if n >= g.len() {
    } else if out.contains(n) {
    } else if path.contains(n) {
        let i = choose|i: int| 0 <= i < path.len() && path[i] == n;
        let c = path.subrange(i, path.len() as int).push(n);
        assert forall|j: int| 0 <= j < c.len() - 1 implies #[trigger] linked(g, c, j) by {
            if j < c.len() - 2 {
                assert(linked(g, path, i + j));
                assert(c[j] == path[i + j] && c[j + 1] == path[i + j + 1]);
            } else {
                assert(c[j] == path.last() && c[j + 1] == n);
            }
        }
        assert(c[0] == path[i]);
        assert(is_cycle(g, c));
    } else {
        let deeper = path.push(n);
        lemma_free_count_insert(g.len(), path.to_set(), n);
        lemma_push_to_set(path, n);
        assert forall|i: int| 0 <= i < deeper.len() - 1 implies #[trigger] linked(
            g,
            deeper,
            i,
        ) by {
            if i < path.len() - 1 {
                assert(linked(g, path, i));
            }
        }
        assert forall|i: int| 0 <= i < deeper.len() implies !out.contains(
            #[trigger] deeper[i],
        ) by {
            if i < path.len() {
                assert(deeper[i] == path[i]);
            }
        }
        lemma_visit_predecessors(g, n, 0, out, deeper);
        let below = visit_predecessors(g, n, 0, out, deeper);
        assert forall|i: int| out.len() <= i < below.order.len() implies !path.contains(
            #[trigger] below.order[i],
        ) by {
            if path.contains(below.order[i]) {
                let j = choose|j: int| 0 <= j < path.len() && path[j] == below.order[i];
                assert(deeper[j] == below.order[i]);
            }
        }
        if below.error is None {
            let done = below.order.push(n);
            assert(t.order == done);
            assert(!below.order.contains(n)) by {
                if below.order.contains(n) {
                    let i = choose|i: int| 0 <= i < below.order.len() && below.order[i] == n;
                    if i < out.len() {
                        assert(out[i] == n);
                    } else {
                        assert(deeper[path.len() as int] == n);
                    }
                }
            }
            assert(done.no_duplicates());
            assert forall|i: int, m: usize|
                0 <= i < done.len() && #[trigger] is_predecessor(
                    g,
                    done[i],
                    m,
                ) implies occurs_before(done, m, i) by {
                if i < below.order.len() {
                    assert(is_predecessor(g, below.order[i], m));
                    let j = choose|j: int|
                        0 <= j < i && j < below.order.len() && #[trigger] below.order[j] == m;
                    assert(done[j] == m);
                } else {
                    let k = choose|k: int| 0 <= k < g[n as int].len() && g[n as int][k] == m;
                    assert(below.order.contains(g[n as int][k]));
                    let j = choose|j: int| 0 <= j < below.order.len() && below.order[j] == m;
                    assert(done[j] == m);
                }
            }
            assert(done[below.order.len() as int] == n);
            assert(is_replay_order(g, done));
        }
    }
}

proof fn lemma_visit_predecessors(
    g: Seq<Seq<usize>>,
    n: usize,
    k: nat,
    out: Seq<usize>,
    path: Seq<usize>,
)
    requires
        is_replay_order(g, out),
        under_way(g, out, path),
        path.len() > 0,
        path.last() == n,
        n < g.len(),
    ensures
        grows(g, n, out, path, visit_predecessors(g, n, k, out, path)),
        visit_predecessors(g, n, k, out, path).error is None ==> forall|j: int|
            k <= j < g[n as int].len() ==> visit_predecessors(g, n, k, out, path).order.contains(
                #[trigger] g[n as int][j],
            ),
    decreases free_count(g.len(), path.to_set()), 1nat, g[n as int].len() - k,
{
    if k < g[n as int].len() {
        let m = g[n as int][k as int];
        assert(is_predecessor(g, n, m));
        lemma_visit(g, m, out, path);
        let first = visit(g, m, out, path);
        if first.error is Some {
            if first.error == Some(DagError::CycleDetected) {
                let c = choose|c: Seq<usize>| #[trigger] is_cycle(g, c) && reaches(g, m, c[0]);
                lemma_reaches_step(g, n, m, c[0]);
            } else {
                let x = choose|x: usize| #[trigger] reaches(g, m, x) && x >= g.len();
                lemma_reaches_step(g, n, m, x);
            }
            assert forall|i: int| out.len() <= i < first.order.len() implies reaches(
                g,
                n,
                #[trigger] first.order[i],
            ) by {
                lemma_reaches_step(g, n, m, first.order[i]);
            }
        } else {
            assert forall|i: int| 0 <= i < path.len() implies !first.order.contains(
                #[trigger] path[i],
            ) by {
                if first.order.contains(path[i]) {
                    let j = choose|j: int| 0 <= j < first.order.len() && first.order[j] == path[i];
                    if j < out.len() {
                        assert(out[j] == path[i]);
                    }
                }
            }
            lemma_visit_predecessors(g, n, k + 1, first.order, path);
            let rest = visit_predecessors(g, n, k + 1, first.order, path);
            assert forall|i: int| out.len() <= i < rest.order.len() implies !path.contains(
                #[trigger] rest.order[i],
            ) && reaches(g, n, rest.order[i]) by {
                if i < first.order.len() {
                    assert(rest.order[i] == first.order[i]);
                    lemma_reaches_step(g, n, m, first.order[i]);
                }
            }
            if rest.error is None {
                assert forall|j: int| k <= j < g[n as int].len() implies rest.order.contains(
                    #[trigger] g[n as int][j],
                ) by {
                    if j == k {
                        lemma_contains_prefix(first.order, rest.order, m);
                    }
                }
            }
        }
    }
}

/// What visiting all of `s` keeps, in the manner of [`grows`].
pub open spec fn grows_from_all(
    g: Seq<Seq<usize>>,
    s: Seq<usize>,
    out: Seq<usize>,
    t: Traversal,
) -> bool {
    &&& out.len() <= t.order.len()
    &&& forall|i: int| 0 <= i < out.len() ==> #[trigger] t.order[i] == out[i]
    &&& is_replay_order(g, t.order)
    &&& forall|i: int| out.len() <= i < t.order.len() ==> reachable(g, s, #[trigger] t.order[i])
    &&& t.error is None ==> forall|i: int| 0 <= i < s.len() ==> t.order.contains(#[trigger] s[i])
    &&& t.error == Some(DagError::CycleDetected) ==> cycle_reachable(g, s)
    &&& t.error == Some(DagError::UnknownPredecessor) ==> dangling_reachable(g, s)
    &&& t.error is None || t.error == Some(DagError::CycleDetected) || t.error == Some(
        DagError::UnknownPredecessor,
    )
}

proof fn lemma_reachable_longer(g: Seq<Seq<usize>>, s: Seq<usize>, v: usize)
    requires
        s.len() > 0,
        reachable(g, s.drop_last(), v),
    ensures
        reachable(g, s, v),
{
    let i = choose|i: int| 0 <= i < s.drop_last().len() && #[trigger] reaches(g, s.drop_last()[i], v);
    assert(reaches(g, s[i], v));
}

proof fn lemma_visit_all(g: Seq<Seq<usize>>, s: Seq<usize>, out: Seq<usize>)
    requires
        is_replay_order(g, out),
    ensures
        grows_from_all(g, s, out, visit_all(g, s, out)),
    decreases s.len(),
{
    if s.len() > 0 {
        let n = s.last();
        let last = s.len() - 1;
        lemma_visit(g, n, out, Seq::empty());
        let first = visit(g, n, out, Seq::empty());
        assert forall|i: int| out.len() <= i < first.order.len() implies reachable(
            g,
            s,
            #[trigger] first.order[i],
        ) by {
            assert(reaches(g, s[last], first.order[i]));
        }
        if first.error == Some(DagError::CycleDetected) {
            let c = choose|c: Seq<usize>| #[trigger] is_cycle(g, c) && reaches(g, n, c[0]);
            assert(reaches(g, s[last], c[0]));
            assert(is_cycle(g, c) && reachable(g, s, c[0]));
        } else if first.error == Some(DagError::UnknownPredecessor) {
            let x = choose|x: usize| #[trigger] reaches(g, n, x) && x >= g.len();
            assert(reaches(g, s[last], x));
            assert(reachable(g, s, x) && x >= g.len());
        } else {
            lemma_visit_all(g, s.drop_last(), first.order);
            let t = visit_all(g, s.drop_last(), first.order);
            assert forall|i: int| out.len() <= i < t.order.len() implies reachable(
                g,
                s,
                #[trigger] t.order[i],
            ) by {
                if i < first.order.len() {
                    assert(t.order[i] == first.order[i]);
                } else {
                    lemma_reachable_longer(g, s, t.order[i]);
                }
            }
            if t.error == Some(DagError::CycleDetected) {
                let c = choose|c: Seq<usize>| #[trigger]
                    is_cycle(g, c) && reachable(g, s.drop_last(), c[0]);
                lemma_reachable_longer(g, s, c[0]);
            } else if t.error == Some(DagError::UnknownPredecessor) {
                let x = choose|x: usize| #[trigger]
                    reachable(g, s.drop_last(), x) && x >= g.len();
                lemma_reachable_longer(g, s, x);
            } else {
                assert forall|i: int| 0 <= i < s.len() implies t.order.contains(
                    #[trigger] s[i],
                ) by {
                    if i < last {
                        assert(s.drop_last()[i] == s[i]);
                    } else {
                        lemma_contains_prefix(first.order, t.order, n);
                    }
                }
            }
        }
    }
}

/// In a replay order that holds the first node of a chain, every node of the
/// chain stands, each before the one that names it.
proof fn lemma_chain_in_order(g: Seq<Seq<usize>>, out: Seq<usize>, p: Seq<usize>, i: int)
    requires
        is_replay_order(g, out),
        is_chain(g, p),
        out.contains(p[0]),
        0 <= i < p.len(),
    ensures
        out.contains(p[i]),
        out.index_of(p[i]) + i <= out.index_of(p[0]),
    decreases i,
{
    if i > 0 {
        lemma_chain_in_order(g, out, p, i - 1);
        assert(linked(g, p, i - 1));
        let a = out.index_of(p[i - 1]);
        assert(is_predecessor(g, out[a], p[i]));
        let j = choose|j: int| 0 <= j < a && j < out.len() && #[trigger] out[j] == p[i];
        let b = out.index_of(p[i]);
        assert(out[b] == p[i]);
    }
}

/// The replay order holds each node reachable from the starting nodes once,
/// and nothing else: it is a permutation of the reachable set.
pub proof fn law_order_is_permutation_of_reachable(g: Seq<Seq<usize>>, s: Seq<usize>)
    requires
        topological_order(g, s).error is None,
    ensures
        topological_order(g, s).order.no_duplicates(),
        topological_order(g, s).order.to_set() == reachable_set(g, s),
        reachable_set(g, s).finite(),
        topological_order(g, s).order.len() == reachable_set(g, s).len(),
{
    let order = topological_order(g, s).order;
    lemma_visit_all(g, s, Seq::empty());
    assert forall|v: usize| order.to_set().contains(v) <==> reachable_set(g, s).contains(v) by {
        if order.contains(v) {
            let i = choose|i: int| 0 <= i < order.len() && order[i] == v;
            assert(reachable(g, s, order[i]));
        }
        if reachable(g, s, v) {
            let i = choose|i: int| 0 <= i < s.len() && #[trigger] reaches(g, s[i], v);
            let p = choose|p: Seq<usize>| #[trigger] is_chain(g, p) && p[0] == s[i] && p.last() == v;
            lemma_chain_in_order(g, order, p, p.len() - 1);
        }
    }
    assert(order.to_set() =~= reachable_set(g, s));
    order.unique_seq_to_set();
}

/// In the replay order every predecessor of a node stands before the node.
pub proof fn law_order_respects_predecessors(g: Seq<Seq<usize>>, s: Seq<usize>, i: int, m: usize)
    requires
        topological_order(g, s).error is None,
        0 <= i < topological_order(g, s).order.len(),
        is_predecessor(g, topological_order(g, s).order[i], m),
    ensures
        exists|j: int| 0 <= j < i && topological_order(g, s).order[j] == m,
{
    let order = topological_order(g, s).order;
    lemma_visit_all(g, s, Seq::empty());
    assert(occurs_before(order, m, i));
    let j = choose|j: int| 0 <= j < i && j < order.len() && #[trigger] order[j] == m;
    assert(0 <= j < i && order[j] == m);
}

/// A replay order exists exactly when the starting nodes reach no cycle and no
/// position outside the arena; each error names what was reached.
pub proof fn law_order_exists(g: Seq<Seq<usize>>, s: Seq<usize>)
    ensures
        topological_order(g, s).error is None <==> !cycle_reachable(g, s) && !dangling_reachable(
            g,
            s,
        ),
        topological_order(g, s).error == Some(DagError::CycleDetected) ==> cycle_reachable(g, s),
        topological_order(g, s).error == Some(DagError::UnknownPredecessor) ==> dangling_reachable(
            g,
            s,
        ),
        topological_order(g, s).error is None || topological_order(g, s).error == Some(
            DagError::CycleDetected,
        ) || topological_order(g, s).error == Some(DagError::UnknownPredecessor),
        is_replay_order(g, topological_order(g, s).order),
{
    let t = topological_order(g, s);
    lemma_visit_all(g, s, Seq::empty());
    if t.error is None {
        if cycle_reachable(g, s) {
            let c = choose|c: Seq<usize>| #[trigger] is_cycle(g, c) && reachable(g, s, c[0]);
            let i = choose|i: int| 0 <= i < s.len() && #[trigger] reaches(g, s[i], c[0]);
            let p = choose|p: Seq<usize>| #[trigger]
                is_chain(g, p) && p[0] == s[i] && p.last() == c[0];
            lemma_chain_in_order(g, t.order, p, p.len() - 1);
            lemma_chain_in_order(g, t.order, c, c.len() - 1);
            assert(false);
        }
        if dangling_reachable(g, s) {
            let x = choose|x: usize| #[trigger] reachable(g, s, x) && x >= g.len();
            let i = choose|i: int| 0 <= i < s.len() && #[trigger] reaches(g, s[i], x);
            let p = choose|p: Seq<usize>| #[trigger] is_chain(g, p) && p[0] == s[i] && p.last() == x;
            lemma_chain_in_order(g, t.order, p, p.len() - 1);
            let j = t.order.index_of(x);
            assert(t.order[j] == x);
            assert(false);
        }
    }
}

/// From starting nodes that hold every node of a closed arena, a replay order
/// exists exactly when the arena has no cycle, and the only error is
/// `CycleDetected`.
pub proof fn law_whole_arena(g: Seq<Seq<usize>>, s: Seq<usize>)
    requires
        closed(g),
        forall|i: int| 0 <= i < s.len() ==> #[trigger] s[i] < g.len(),
        forall|v: usize| v < g.len() ==> s.contains(v),
    ensures
        topological_order(g, s).error is None <==> acyclic(g),
        topological_order(g, s).error is Some ==> topological_order(g, s).error == Some(
            DagError::CycleDetected,
        ),
{
    law_order_exists(g, s);
    lemma_visit_all(g, s, Seq::empty());
    if dangling_reachable(g, s) {
        let x = choose|x: usize| #[trigger] reachable(g, s, x) && x >= g.len();
        let i = choose|i: int| 0 <= i < s.len() && #[trigger] reaches(g, s[i], x);
        lemma_closed_reach(g, s[i], x);
    }
    if cycle_reachable(g, s) {
        let c = choose|c: Seq<usize>| #[trigger] is_cycle(g, c) && reachable(g, s, c[0]);
        assert(!acyclic(g));
    }
    if !acyclic(g) {
        let c = choose|c: Seq<usize>| #[trigger] is_cycle(g, c);
        assert(linked(g, c, 0));
        assert(c[0] < g.len());
        assert(s.contains(c[0]));
        let i = s.index_of(c[0]);
        assert(s[i] == c[0]);
        lemma_reaches_self(g, c[0]);
        assert(reaches(g, s[i], c[0]));
        assert(reachable(g, s, c[0]));
    }
}

/// From starting nodes inside a closed arena without cycles a replay order
/// always exists.
pub proof fn law_acyclic_arena_has_order(g: Seq<Seq<usize>>, s: Seq<usize>)
    requires
        closed(g),
        acyclic(g),
        forall|i: int| 0 <= i < s.len() ==> #[trigger] s[i] < g.len(),
    ensures
        topological_order(g, s).error is None,
{
    law_order_exists(g, s);
    if dangling_reachable(g, s) {
        let x = choose|x: usize| #[trigger] reachable(g, s, x) && x >= g.len();
        let i = choose|i: int| 0 <= i < s.len() && #[trigger] reaches(g, s[i], x);
        lemma_closed_reach(g, s[i], x);
    }
    if cycle_reachable(g, s) {
        let c = choose|c: Seq<usize>| #[trigger] is_cycle(g, c) && reachable(g, s, c[0]);
        assert(!acyclic(g));
    }
}

/// Traversing again, from the same starting nodes and with nothing changed in
/// the arena, gives the same result: the same order, or the same error.
pub proof fn law_traversal_is_repeatable(
    g: Seq<Seq<usize>>,
    s: Seq<usize>,
    first: Result<Vec<usize>, DagError>,
    second: Result<Vec<usize>, DagError>,
)
    requires
        reported(topological_order(g, s), first),
        reported(topological_order(g, s), second),
    ensures
        match (first, second) {
            (Ok(a), Ok(b)) => a@ == b@,
            (Err(a), Err(b)) => a == b,
            _ => false,
        },
{
}

/// Above the first node of a chain in an arena without cycles stands a root.
proof fn lemma_root_above(g: Seq<Seq<usize>>, p: Seq<usize>)
    requires
        acyclic(g),
        is_chain(g, p),
        p[0] < g.len(),
    ensures
        exists|r: usize| is_root(g, r) && #[trigger] reaches(g, r, p.last()),
    decreases free_count(g.len(), p.to_set()),
{
    if is_root(g, p[0]) {
        assert(reaches(g, p[0], p.last()));
    } else {
        let m = choose|m: usize| #[trigger] is_predecessor(g, m, p[0]);
        let q = seq![m] + p;
        assert forall|i: int| 0 <= i < q.len() - 1 implies #[trigger] linked(g, q, i) by {
            if i == 0 {
                assert(q[0] == m && q[1] == p[0]);
            } else {
                assert(linked(g, p, i - 1));
                assert(q[i] == p[i - 1] && q[i + 1] == p[i]);
            }
        }
        assert(q.last() == p.last());
        if p.contains(m) {
            let i = choose|i: int| 0 <= i < p.len() && p[i] == m;
            let c = q.take(i + 2);
            assert forall|j: int| 0 <= j < c.len() - 1 implies #[trigger] linked(g, c, j) by {
                assert(linked(g, q, j));
            }
            assert(c[0] == m && c.last() == q[i + 1]);
            assert(is_cycle(g, c));
        }
        assert(q.to_set() =~= p.to_set().insert(m)) by {
            assert forall|x: usize| q.contains(x) <==> p.contains(x) || x == m by {
                if q.contains(x) {
                    let i = choose|i: int| 0 <= i < q.len() && q[i] == x;
                    if i > 0 {
                        assert(p[i - 1] == x);
                    }
                }
                if p.contains(x) {
                    let i = choose|i: int| 0 <= i < p.len() && p[i] == x;
                    assert(q[i + 1] == x);
                }
                if x == m {
                    assert(q[0] == x);
                }
            }
        }
        lemma_free_count_insert(g.len(), p.to_set(), m);
        lemma_root_above(g, q);
    }
}

/// In an arena without cycles every node is reached from a root: a traversal
/// that starts from all roots replays the whole history.
pub proof fn law_roots_reach_every_node(g: Seq<Seq<usize>>, v: usize)
    requires
        acyclic(g),
        v < g.len(),
    ensures
        exists|r: usize| is_root(g, r) && #[trigger] reaches(g, r, v),
{
    let p = seq![v];
    assert(is_chain(g, p));
    lemma_root_above(g, p);
}

/// From starting nodes that are all the roots of a closed arena without
/// cycles, the replay order holds every node of the arena once.
pub proof fn law_replay_from_roots_is_complete(g: Seq<Seq<usize>>, s: Seq<usize>)
    requires
        closed(g),
        acyclic(g),
        g.len() <= usize::MAX,
        forall|r: usize| s.contains(r) <==> is_root(g, r),
    ensures
        topological_order(g, s).error is None,
        topological_order(g, s).order.no_duplicates(),
        forall|v: usize| topological_order(g, s).order.contains(v) <==> v < g.len(),
        topological_order(g, s).order.len() == g.len(),
{
    assert forall|i: int| 0 <= i < s.len() implies #[trigger] s[i] < g.len() by {
        assert(s.contains(s[i]));
    }
    law_acyclic_arena_has_order(g, s);
    law_order_is_permutation_of_reachable(g, s);
    law_order_exists(g, s);
    let order = topological_order(g, s).order;
    assert forall|v: usize| order.contains(v) <==> v < g.len() by {
        if order.contains(v) {
            let i = choose|i: int| 0 <= i < order.len() && order[i] == v;
            assert(order[i] < g.len());
        }
        if v < g.len() {
            law_roots_reach_every_node(g, v);
            let r = choose|r: usize| is_root(g, r) && #[trigger] reaches(g, r, v);
            let i = choose|i: int| 0 <= i < s.len() && s[i] == r;
            assert(reaches(g, s[i], v));
            assert(reachable(g, s, v));
            assert(reachable_set(g, s).contains(v));
            assert(order.to_set().contains(v));
        }
    }
    lemma_all_positions(g.len(), order);
}

/// A sequence without duplicates that holds exactly the positions below `n`
/// has `n` elements.
proof fn lemma_all_positions(n: nat, order: Seq<usize>)
    requires
        n <= usize::MAX,
        order.no_duplicates(),
        forall|v: usize| order.contains(v) <==> v < n,
    ensures
        order.len() == n,
    decreases n,
{
    if n == 0 {
        if order.len() > 0 {
            assert(order.contains(order[0]));
        }
    } else {
        let top = (n - 1) as usize;
        assert(order.contains(top));
        let i = order.index_of(top);
        let rest = order.remove(i);
        assert forall|a: int| 0 <= a < rest.len() implies #[trigger] rest[a] == order[if a < i {
            a
        } else {
            a + 1
        }] by {}
        assert(rest.no_duplicates());
        assert forall|v: usize| rest.contains(v) <==> v < n - 1 by {
            if rest.contains(v) {
                let a = choose|a: int| 0 <= a < rest.len() && rest[a] == v;
                assert(order.contains(rest[a]));
            }
            if v < n - 1 {
                assert(order.contains(v));
                let x = choose|x: int| 0 <= x < order.len() && order[x] == v;
                if x < i {
                    assert(rest[x] == v);
                } else {
                    assert(rest[x - 1] == v);
                }
            }
        }
        lemma_all_positions((n - 1) as nat, rest);
    }
}

} // verus!
