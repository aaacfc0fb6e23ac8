//! Causal dependency as a relation on the positions of an arena.
//!
//! An arena is seen here as its predecessor lists, `g[n]` being the list of
//! node `n`. The definitions do not ask that the lists stay inside the arena,
//! nor that they are free of cycles: they say what both would mean.

use vstd::prelude::*;

verus! {

/// `m` is named by `n` as one of its predecessors.
pub open spec fn is_predecessor(g: Seq<Seq<usize>>, n: usize, m: usize) -> bool {
    n < g.len() && g[n as int].contains(m)
}

/// The element after position `i` of `p` is a predecessor of that at `i`.
pub open spec fn linked(g: Seq<Seq<usize>>, p: Seq<usize>, i: int) -> bool {
    is_predecessor(g, p[i], p[i + 1])
}

/// `p` walks predecessor edges: each element names the next as a predecessor.
pub open spec fn is_chain(g: Seq<Seq<usize>>, p: Seq<usize>) -> bool {
    p.len() > 0 && forall|i: int| 0 <= i < p.len() - 1 ==> #[trigger] linked(g, p, i)
}

/// `m` is `n` itself or one of the operations that `n` causally depends on.
pub open spec fn reaches(g: Seq<Seq<usize>>, n: usize, m: usize) -> bool {
    exists|p: Seq<usize>| #[trigger] is_chain(g, p) && p[0] == n && p.last() == m
}

/// `m` is reached from one of the nodes of `s`.
pub open spec fn reachable(g: Seq<Seq<usize>>, s: Seq<usize>, m: usize) -> bool {
    exists|i: int| 0 <= i < s.len() && #[trigger] reaches(g, s[i], m)
}

/// The nodes reached from the nodes of `s`.
pub open spec fn reachable_set(g: Seq<Seq<usize>>, s: Seq<usize>) -> Set<usize> {
    Set::new(|m: usize| reachable(g, s, m))
}

/// `p` walks predecessor edges from a node back to itself.
pub open spec fn is_cycle(g: Seq<Seq<usize>>, p: Seq<usize>) -> bool {
    is_chain(g, p) && p.len() >= 2 && p[0] == p.last()
}

/// Some node reached from `s` lies on a cycle.
pub open spec fn cycle_reachable(g: Seq<Seq<usize>>, s: Seq<usize>) -> bool {
    exists|p: Seq<usize>| #[trigger] is_cycle(g, p) && reachable(g, s, p[0])
}

/// Some position reached from `s` lies outside the arena.
pub open spec fn dangling_reachable(g: Seq<Seq<usize>>, s: Seq<usize>) -> bool {
    exists|m: usize| #[trigger] reachable(g, s, m) && m >= g.len()
}

/// No node of the arena lies on a cycle.
pub open spec fn acyclic(g: Seq<Seq<usize>>) -> bool {
    forall|p: Seq<usize>| !#[trigger] is_cycle(g, p)
}

/// Every predecessor list stays inside the arena.
pub open spec fn closed(g: Seq<Seq<usize>>) -> bool {
    forall|n: int, k: int|
        0 <= n < g.len() && 0 <= k < g[n].len() ==> (#[trigger] g[n][k]) < g.len()
}

/// Each element is less than the next.
pub open spec fn ascending(s: Seq<usize>) -> bool {
    forall|i: int, j: int| 0 <= i < j < s.len() ==> s[i] < s[j]
}

/// `m` stands in `out` before position `i`.
pub open spec fn occurs_before(out: Seq<usize>, m: usize, i: int) -> bool {
    exists|j: int| 0 <= j < i && j < out.len() && #[trigger] out[j] == m
}

/// Every node of `out` stands after all of its predecessors.
pub open spec fn respects(g: Seq<Seq<usize>>, out: Seq<usize>) -> bool {
    forall|i: int, m: usize|
        0 <= i < out.len() && #[trigger] is_predecessor(g, out[i], m) ==> occurs_before(out, m, i)
}

/// `out` is a replay order: nodes of the arena, none twice, each after all of
/// its predecessors.
pub open spec fn is_replay_order(g: Seq<Seq<usize>>, out: Seq<usize>) -> bool {
    &&& out.no_duplicates()
    &&& forall|i: int| 0 <= i < out.len() ==> (#[trigger] out[i]) < g.len()
    &&& respects(g, out)
}

/// `v` is a root: no node of the arena names it as a predecessor.
pub open spec fn is_root(g: Seq<Seq<usize>>, v: usize) -> bool {
    v < g.len() && forall|m: usize| !#[trigger] is_predecessor(g, m, v)
}

/// `v` is a source: it names no predecessor.
pub open spec fn is_source(g: Seq<Seq<usize>>, v: usize) -> bool {
    v < g.len() && g[v as int].len() == 0
}

/// Every node reaches itself.
pub proof fn lemma_reaches_self(g: Seq<Seq<usize>>, n: usize)
    ensures
        reaches(g, n, n),
{
    let p = seq![n];
    assert(is_chain(g, p));
    assert(p[0] == n && p.last() == n);
}

/// What a predecessor reaches, the node that names it reaches too.
pub proof fn lemma_reaches_step(g: Seq<Seq<usize>>, n: usize, m: usize, v: usize)
    requires
        is_predecessor(g, n, m),
        reaches(g, m, v),
    ensures
        reaches(g, n, v),
{
    let p = choose|p: Seq<usize>| #[trigger] is_chain(g, p) && p[0] == m && p.last() == v;
    let q = seq![n] + p;
    assert forall|i: int| 0 <= i < q.len() - 1 implies #[trigger] linked(g, q, i) by {
        if i == 0 {
            assert(q[0] == n && q[1] == p[0]);
        } else {
            assert(linked(g, p, i - 1));
            assert(q[i] == p[i - 1] && q[i + 1] == p[i]);
        }
    }
    assert(is_chain(g, q));
    assert(q[0] == n && q.last() == v);
}

/// In a closed arena a node reaches only nodes of the arena.
pub proof fn lemma_closed_reach(g: Seq<Seq<usize>>, n: usize, m: usize)
    requires
        closed(g),
        n < g.len(),
        reaches(g, n, m),
    ensures
        m < g.len(),
{
    let p = choose|p: Seq<usize>| #[trigger] is_chain(g, p) && p[0] == n && p.last() == m;
    lemma_chain_stays_inside(g, p, p.len() - 1);
}

proof fn lemma_chain_stays_inside(g: Seq<Seq<usize>>, p: Seq<usize>, i: int)
    requires
        closed(g),
        is_chain(g, p),
        p[0] < g.len(),
        0 <= i < p.len(),
    ensures
        p[i] < g.len(),
    decreases i,
{
    if i > 0 {
        lemma_chain_stays_inside(g, p, i - 1);
        assert(linked(g, p, i - 1));
        let list = g[p[i - 1] as int];
        let k = choose|k: int| 0 <= k < list.len() && list[k] == p[i];
        assert(g[p[i - 1] as int][k] < g.len());
    }
}

/// Every node names only nodes that stand before it in the arena.
pub open spec fn ordered(g: Seq<Seq<usize>>) -> bool {
    forall|n: int, k: int| 0 <= n < g.len() && 0 <= k < g[n].len() ==> (#[trigger] g[n][k]) < n
}

proof fn lemma_chain_descends(g: Seq<Seq<usize>>, p: Seq<usize>, i: int)
    requires
        ordered(g),
        is_chain(g, p),
        0 <= i < p.len(),
    ensures
        p[i] + i <= p[0],
    decreases i,
{
    if i > 0 {
        lemma_chain_descends(g, p, i - 1);
        assert(linked(g, p, i - 1));
        let list = g[p[i - 1] as int];
        let k = choose|k: int| 0 <= k < list.len() && list[k] == p[i];
        assert(g[p[i - 1] as int][k] < p[i - 1]);
    }
}

/// An arena in which every node names only nodes before it is closed and
/// has no cycle.
pub proof fn lemma_ordered_is_acyclic(g: Seq<Seq<usize>>)
    requires
        ordered(g),
    ensures
        closed(g),
        acyclic(g),
{
    assert forall|p: Seq<usize>| !#[trigger] is_cycle(g, p) by {
        if is_cycle(g, p) {
            lemma_chain_descends(g, p, p.len() - 1);
        }
    }
}

/// The roots of the arena in ascending order.
pub open spec fn root_list(g: Seq<Seq<usize>>) -> Seq<usize> {
    choose|s: Seq<usize>| ascending(s) && forall|v: usize| s.contains(v) <==> is_root(g, v)
}

/// Two ascending sequences with the same elements are the same sequence.
pub proof fn lemma_ascending_is_unique(a: Seq<usize>, b: Seq<usize>)
    requires
        ascending(a),
        ascending(b),
        forall|v: usize| a.contains(v) <==> b.contains(v),
    ensures
        a == b,
    decreases a.len(),
{
    if a.len() == 0 {
        if b.len() > 0 {
            assert(b.contains(b[0]));
        }
        assert(a =~= b);
    } else if b.len() == 0 {
        assert(a.contains(a[0]));
    } else {
        let x = a.last();
        let y = b.last();
        assert(a.contains(x)) by {
            assert(a[a.len() - 1] == x);
        }
        assert(b.contains(y)) by {
            assert(b[b.len() - 1] == y);
        }
        let i = choose|i: int| 0 <= i < b.len() && b[i] == x;
        let j = choose|j: int| 0 <= j < a.len() && a[j] == y;
        assert(x == y);
        let front = a.drop_last();
        let other = b.drop_last();
        assert forall|v: usize| front.contains(v) <==> other.contains(v) by {
            if front.contains(v) {
                let k = choose|k: int| 0 <= k < front.len() && front[k] == v;
                assert(a[k] == v);
                assert(a.contains(v));
                let m = choose|m: int| 0 <= m < b.len() && b[m] == v;
                assert(other[m] == v);
            }
            if other.contains(v) {
                let k = choose|k: int| 0 <= k < other.len() && other[k] == v;
                assert(b[k] == v);
                assert(b.contains(v));
                let m = choose|m: int| 0 <= m < a.len() && a[m] == v;
                assert(front[m] == v);
            }
        }
        lemma_ascending_is_unique(front, other);
        assert(a =~= front.push(x));
        assert(b =~= other.push(y));
    }
}

/// The ascending sequence of the roots is the list of the roots.
pub proof fn lemma_root_list(g: Seq<Seq<usize>>, s: Seq<usize>)
    requires
        ascending(s),
        forall|v: usize| s.contains(v) <==> is_root(g, v),
    ensures
        s == root_list(g),
{
    lemma_ascending_is_unique(s, root_list(g));
}

} // verus!
