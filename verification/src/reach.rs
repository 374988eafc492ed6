//! Reachability over an adjacency map, stated through explicit walks.
//!
//! The graph algorithms state their contracts in terms of `reachable`, which
//! is defined over the adjacency component of a graph's model alone, so the
//! definitions here are independent of the graph representation.

use vstd::prelude::*;

verus! {

/// One directed step: `v` occurs in the adjacency sequence of `u`.
pub open spec fn adj_step(adj: Map<usize, Seq<usize>>, u: usize, v: usize) -> bool {
    adj.dom().contains(u) && adj[u].contains(v)
}

/// Every adjacency target is itself a key of the map.
pub open spec fn adj_targets_in_dom(adj: Map<usize, Seq<usize>>) -> bool {
    forall|u: usize, v: usize| #[trigger] adj_step(adj, u, v) ==> adj.dom().contains(v)
}

/// Every adjacency step can be taken backwards, as in an undirected graph.
pub open spec fn adj_symmetric(adj: Map<usize, Seq<usize>>) -> bool {
    forall|u: usize, v: usize| #[trigger] adj_step(adj, u, v) ==> adj_step(adj, v, u)
}

/// `p` is a walk through the adjacency map: nonempty, starting at a key of
/// the map, with each consecutive pair an adjacency step.
#[verifier::opaque]
pub open spec fn is_walk(adj: Map<usize, Seq<usize>>, p: Seq<usize>) -> bool {
    &&& p.len() > 0
    &&& adj.dom().contains(p[0])
    &&& forall|i: int| 0 <= i < p.len() - 1 ==> adj_step(adj, #[trigger] p[i], p[i + 1])
}

/// `n` can be reached from `s` by following adjacency steps.
#[verifier::opaque]
pub open spec fn reachable(adj: Map<usize, Seq<usize>>, s: usize, n: usize) -> bool {
    exists|p: Seq<usize>| is_walk(adj, p) && p.first() == s && p.last() == n
}

/// Every node of the map reaches itself.
pub proof fn lemma_reachable_refl(adj: Map<usize, Seq<usize>>, s: usize)
    requires
        adj.dom().contains(s),
    ensures
        reachable(adj, s, s),
{
    reveal(is_walk);
    reveal(reachable);
    let p: Seq<usize> = seq![s];
    assert(is_walk(adj, p) && p.first() == s && p.last() == s);
}

/// Reachability extends along one adjacency step.
pub proof fn lemma_reachable_step(adj: Map<usize, Seq<usize>>, s: usize, u: usize, v: usize)
    requires
        reachable(adj, s, u),
        adj_step(adj, u, v),
    ensures
        reachable(adj, s, v),
{
    reveal(is_walk);
    reveal(reachable);
    let p = choose|p: Seq<usize>| is_walk(adj, p) && p.first() == s && p.last() == u;
    let q = p.push(v);
    assert forall|i: int| 0 <= i < q.len() - 1 implies adj_step(adj, #[trigger] q[i], q[i + 1]) by {
        if i < p.len() - 1 {
            assert(adj_step(adj, p[i], p[i + 1]));
        }
    }
    assert(is_walk(adj, q) && q.first() == s && q.last() == v);
}

/// A walk that starts inside a step-closed set ends inside it.
pub proof fn lemma_closed_walk(adj: Map<usize, Seq<usize>>, vis: Set<usize>, p: Seq<usize>)
    requires
        is_walk(adj, p),
        vis.contains(p.first()),
        forall|u: usize, v: usize|
            vis.contains(u) && #[trigger] adj_step(adj, u, v) ==> vis.contains(v),
    ensures
        vis.contains(p.last()),
    decreases p.len(),
{
    reveal(is_walk);
    reveal(reachable);
    if p.len() > 1 {
        let q = p.drop_last();
        assert forall|i: int| 0 <= i < q.len() - 1 implies adj_step(adj, #[trigger] q[i], q[i + 1]) by {
            assert(adj_step(adj, p[i], p[i + 1]));
        }
        lemma_closed_walk(adj, vis, q);
        assert(adj_step(adj, p[p.len() - 2], p[p.len() - 1]));
    }
}

/// A step-closed set that contains `s` contains everything reachable from `s`.
pub proof fn lemma_closed_reachable(
    adj: Map<usize, Seq<usize>>,
    vis: Set<usize>,
    s: usize,
    n: usize,
)
    requires
        reachable(adj, s, n),
        vis.contains(s),
        forall|u: usize, v: usize|
            vis.contains(u) && #[trigger] adj_step(adj, u, v) ==> vis.contains(v),
    ensures
        vis.contains(n),
{
    reveal(is_walk);
    reveal(reachable);
    let p = choose|p: Seq<usize>| is_walk(adj, p) && p.first() == s && p.last() == n;
    lemma_closed_walk(adj, vis, p);
}

/// Reachability is preserved when the adjacency map only grows: every key
/// and every step of the smaller map is present in the larger one.
pub proof fn lemma_reachable_mono(
    adj1: Map<usize, Seq<usize>>,
    adj2: Map<usize, Seq<usize>>,
    s: usize,
    n: usize,
)
    requires
        reachable(adj1, s, n),
        forall|u: usize| #[trigger] adj1.dom().contains(u) ==> adj2.dom().contains(u),
        forall|u: usize, v: usize| #[trigger] adj_step(adj1, u, v) ==> adj_step(adj2, u, v),
    ensures
        reachable(adj2, s, n),
{
    reveal(is_walk);
    reveal(reachable);
    let p = choose|p: Seq<usize>| is_walk(adj1, p) && p.first() == s && p.last() == n;
    assert forall|i: int| 0 <= i < p.len() - 1 implies adj_step(adj2, #[trigger] p[i], p[i + 1]) by {
        assert(adj_step(adj1, p[i], p[i + 1]));
    }
    assert(is_walk(adj2, p));
}

/// One step of the symmetric closure of adjacency: `u` and `v` are joined
/// by an adjacency entry in either direction.
pub open spec fn sym_step(adj: Map<usize, Seq<usize>>, u: usize, v: usize) -> bool {
    adj_step(adj, u, v) || adj_step(adj, v, u)
}

/// `p` is a walk through the symmetric closure of the adjacency map.
#[verifier::opaque]
pub open spec fn is_sym_walk(adj: Map<usize, Seq<usize>>, p: Seq<usize>) -> bool {
    &&& p.len() > 0
    &&& adj.dom().contains(p[0])
    &&& forall|i: int| 0 <= i < p.len() - 1 ==> sym_step(adj, #[trigger] p[i], p[i + 1])
}

/// `a` and `b` are connected when edges are taken as symmetric: some walk
/// through the symmetric closure of adjacency joins them.
#[verifier::opaque]
pub open spec fn sym_connected(adj: Map<usize, Seq<usize>>, a: usize, b: usize) -> bool {
    exists|p: Seq<usize>| is_sym_walk(adj, p) && p.first() == a && p.last() == b
}

/// Every node of the map is connected to itself.
pub proof fn lemma_sym_refl(adj: Map<usize, Seq<usize>>, s: usize)
    requires
        adj.dom().contains(s),
    ensures
        sym_connected(adj, s, s),
{
    reveal(is_sym_walk);
    reveal(sym_connected);
    let p: Seq<usize> = seq![s];
    assert(is_sym_walk(adj, p) && p.first() == s && p.last() == s);
}

/// Connectivity extends along one symmetric step.
pub proof fn lemma_sym_step(adj: Map<usize, Seq<usize>>, s: usize, u: usize, v: usize)
    requires
        sym_connected(adj, s, u),
        sym_step(adj, u, v),
    ensures
        sym_connected(adj, s, v),
{
    reveal(is_sym_walk);
    reveal(sym_connected);
    let p = choose|p: Seq<usize>| is_sym_walk(adj, p) && p.first() == s && p.last() == u;
    let q = p.push(v);
    assert forall|i: int| 0 <= i < q.len() - 1 implies sym_step(adj, #[trigger] q[i], q[i + 1]) by {
        if i < p.len() - 1 {
            assert(sym_step(adj, p[i], p[i + 1]));
        }
    }
    assert(is_sym_walk(adj, q) && q.first() == s && q.last() == v);
}

/// Connectivity composes.
pub proof fn lemma_sym_trans(adj: Map<usize, Seq<usize>>, a: usize, b: usize, c: usize)
    requires
        sym_connected(adj, a, b),
        sym_connected(adj, b, c),
    ensures
        sym_connected(adj, a, c),
{
    reveal(is_sym_walk);
    reveal(sym_connected);
    let p = choose|p: Seq<usize>| is_sym_walk(adj, p) && p.first() == a && p.last() == b;
    let q = choose|q: Seq<usize>| is_sym_walk(adj, q) && q.first() == b && q.last() == c;
    let r = p + q.drop_first();
    assert forall|i: int| 0 <= i < r.len() - 1 implies sym_step(adj, #[trigger] r[i], r[i + 1]) by {
        if i < p.len() - 1 {
            assert(sym_step(adj, p[i], p[i + 1]));
            assert(r[i] == p[i] && r[i + 1] == p[i + 1]);
        } else if i == p.len() - 1 {
            if q.len() > 1 {
                assert(sym_step(adj, q[0], q[1]));
                assert(r[i] == p.last() && r[i + 1] == q[1]);
            }
        } else {
            let j = i - p.len() + 1;
            assert(sym_step(adj, q[j], q[j + 1]));
            assert(r[i] == q[j] && r[i + 1] == q[j + 1]);
        }
    }
    assert(r.first() == a && r.last() == c);
    assert(is_sym_walk(adj, r));
}

/// Reachability composes.
pub proof fn lemma_reachable_trans(adj: Map<usize, Seq<usize>>, a: usize, b: usize, c: usize)
    requires
        reachable(adj, a, b),
        reachable(adj, b, c),
    ensures
        reachable(adj, a, c),
{
    reveal(is_walk);
    reveal(reachable);
    let p = choose|p: Seq<usize>| is_walk(adj, p) && p.first() == a && p.last() == b;
    let q = choose|q: Seq<usize>| is_walk(adj, q) && q.first() == b && q.last() == c;
    let r = p + q.drop_first();
    assert forall|i: int| 0 <= i < r.len() - 1 implies adj_step(adj, #[trigger] r[i], r[i + 1]) by {
        if i < p.len() - 1 {
            assert(adj_step(adj, p[i], p[i + 1]));
            assert(r[i] == p[i] && r[i + 1] == p[i + 1]);
        } else if i == p.len() - 1 {
            if q.len() > 1 {
                assert(adj_step(adj, q[0], q[1]));
                assert(r[i] == p.last() && r[i + 1] == q[1]);
            }
        } else {
            let j = i - p.len() + 1;
            assert(adj_step(adj, q[j], q[j + 1]));
            assert(r[i] == q[j] && r[i + 1] == q[j + 1]);
        }
    }
    assert(r.first() == a && r.last() == c);
    assert(is_walk(adj, r));
}

} // verus!
