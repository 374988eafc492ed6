//! The classic algorithms over the graph store: depth- and breadth-first
//! traversal, minimum-spanning-tree construction (Prim, Kruskal), and
//! connected-component partitioning.

use crate::disjoint_set::{reps, DisjointSet};
use crate::graph::{ensure_adj, push_digits, spec_canon, spec_digits, AdjListGraph, EdgeLabel};
use crate::reach::{adj_step, lemma_closed_reachable, lemma_reachable_mono, lemma_reachable_refl,
    lemma_reachable_step, lemma_reachable_trans, lemma_sym_refl, lemma_sym_step, lemma_sym_trans,
    reachable, sym_connected, sym_step};
use vstd::prelude::*;

verus! {

/// How a spanning-tree construction can fail: the input was directed, or it
/// was not connected and no spanning tree exists.
#[derive(Clone, Copy, Debug, PartialEq, Eq, Structural)]
pub enum MstError {
    /// The algorithm only works with an undirected graph.
    NotUndirected,
    /// The graph is not connected, so no spanning tree exists.
    Disconnected,
}

/// A weight projection for edge payloads; spanning-tree construction orders
/// edges by it. Implementors state what the weight of a value is through
/// `spec_weight`.
pub trait Weight {
    /// The weight as a mathematical integer.
    spec fn spec_weight(&self) -> int;

    /// The weight of this payload.
    fn weight(&self) -> (w: isize)
        ensures
            w as int == self.spec_weight(),
    ;

    /// Replaces the weight of this payload.
    fn set_weight(&mut self, w: isize)
        ensures
            final(self).spec_weight() == w as int,
    ;
}

/// A weighted edge payload: a single `isize` weight.
#[derive(Clone, Copy, Debug, PartialEq, Eq, Structural)]
pub struct Edge {
    weight: isize,
}

impl Edge {
    /// Creates a payload with the given weight.
    pub fn new(weight: isize) -> (r: Edge)
        ensures
            r.spec_weight() == weight as int,
    {
        Edge { weight }
    }
}

impl Weight for Edge {
    closed spec fn spec_weight(&self) -> int {
        self.weight as int
    }

    fn weight(&self) -> (w: isize)
        ensures
            w as int == self.spec_weight(),
    {
        self.weight
    }

    fn set_weight(&mut self, w: isize)
        ensures
            final(self).spec_weight() == w as int,
    {
        self.weight = w;
    }
}

impl EdgeLabel for Edge {
    /// The decimal rendering of the weight, with a leading minus sign when
    /// negative.
    closed spec fn spec_label(&self) -> Seq<char> {
        if self.weight < 0 {
            "-"@ + spec_digits((-(self.weight as int)) as nat)
        } else {
            spec_digits(self.weight as nat)
        }
    }

    fn label(&self) -> (s: String)
        ensures
            s@ == self.spec_label(),
    {
        let mut s = String::new();
        if self.weight < 0 {
            s.append("-");
            let mag: u128 = (-(self.weight as i128)) as u128;
            proof {
                assert(mag as nat == (-(self.weight as int)) as nat);
            }
            push_digits(&mut s, mag);
            proof {
                assert(s@ =~= self.spec_label());
            }
        } else {
            push_digits(&mut s, self.weight as u128);
            proof {
                assert(s@ =~= self.spec_label());
            }
        }
        s
    }
}

/// The visit capability handed to a traversal: called once per visited node,
/// with the node and the id it was discovered from (`None` for the source).
pub trait DFSVisitor {
    /// Called once for each visited node, in visit order.
    fn visit(&mut self, node: usize, parent: Option<usize>);
}

/// Node `n` occurs in the visit sequence `r`.
pub open spec fn visited_in(r: Seq<(usize, Option<usize>)>, n: usize) -> bool {
    exists|i: int| 0 <= i < r.len() && (#[trigger] r[i]).0 == n
}

/// Entry `i` of the visit sequence names a parent that was visited earlier
/// and has an adjacency step to entry `i`'s node.
pub open spec fn parent_edge_before<V, E>(
    g: &AdjListGraph<V, E>,
    r: Seq<(usize, Option<usize>)>,
    i: int,
) -> bool {
    exists|j: int|
        0 <= j < i && (#[trigger] r[j]).0 == r[i].1->Some_0 && adj_step(
            g.spec_adj(),
            r[i].1->Some_0,
            r[i].0,
        )
}

/// Entry `j` of the visit sequence is the parent of entry `i`: it was
/// visited earlier, its node is entry `i`'s recorded parent, and it has an
/// adjacency step to entry `i`'s node.
pub open spec fn parent_at<V, E>(
    g: &AdjListGraph<V, E>,
    r: Seq<(usize, Option<usize>)>,
    i: int,
    j: int,
) -> bool {
    &&& 0 <= j < i
    &&& r[j].0 == r[i].1->Some_0
    &&& adj_step(g.spec_adj(), r[i].1->Some_0, r[i].0)
}

/// The stack discipline of depth-first preorder: every visited node's
/// parent is the most recently visited of the already-visited nodes with an
/// adjacency step to it. Level order violates this whenever a later-visited
/// neighbor exists.
pub open spec fn dfs_parent_latest<V, E>(
    g: &AdjListGraph<V, E>,
    r: Seq<(usize, Option<usize>)>,
) -> bool {
    forall|i: int, j: int, a: int|
        1 <= i < r.len() && #[trigger] parent_at(g, r, i, j) && 0 <= a < i && #[trigger] adj_step(
            g.spec_adj(),
            r[a].0,
            r[i].0,
        ) ==> a <= j
}

/// The queue discipline of breadth-first level order: across the visit
/// sequence, parents occur at nondecreasing visit positions. Depth-first
/// preorder violates this whenever a traversal backtracks.
pub open spec fn bfs_parents_monotone<V, E>(
    g: &AdjListGraph<V, E>,
    r: Seq<(usize, Option<usize>)>,
) -> bool {
    forall|i1: int, i2: int, j1: int, j2: int|
        1 <= i1 <= i2 < r.len() && #[trigger] parent_at(g, r, i1, j1) && #[trigger] parent_at(
            g,
            r,
            i2,
            j2,
        ) ==> j1 <= j2
}

/// The visit sequence `r` is a valid traversal of `g` from `source`: it
/// starts at the source with no parent, visits each node at most once, visits
/// only nodes of the graph, and gives every later entry an earlier-visited
/// parent with an adjacency step to it.
pub open spec fn valid_visit_order<V, E>(
    g: &AdjListGraph<V, E>,
    source: usize,
    r: Seq<(usize, Option<usize>)>,
) -> bool {
    &&& r.len() >= 1
    &&& r[0] == (source, Option::<usize>::None)
    &&& forall|i: int, j: int| 0 <= i < j < r.len() ==> (#[trigger] r[i]).0 != (#[trigger] r[j]).0
    &&& forall|i: int| 0 <= i < r.len() ==> g.spec_nodes().dom().contains((#[trigger] r[i]).0)
    &&& forall|i: int| 1 <= i < r.len() ==> (#[trigger] r[i]).1 is Some
    &&& forall|i: int| 1 <= i < r.len() ==> #[trigger] parent_edge_before(g, r, i)
}

/// Every node of the visit sequence is reachable from the source, and every
/// node reachable from the source is in the visit sequence.
pub open spec fn visits_reachable<V, E>(
    g: &AdjListGraph<V, E>,
    source: usize,
    r: Seq<(usize, Option<usize>)>,
) -> bool {
    &&& forall|i: int|
        0 <= i < r.len() ==> reachable(g.spec_adj(), source, (#[trigger] r[i]).0)
    &&& forall|n: usize| #[trigger]
        reachable(g.spec_adj(), source, n) ==> visited_in(r, n)
}

/// Node `w` occurs as the node of some pending stack entry.
pub open spec fn in_stack(stack: Seq<(usize, Option<usize>)>, w: usize) -> bool {
    exists|s: int| 0 <= s < stack.len() && (#[trigger] stack[s]).0 == w
}

/// Whether node `v` occurs as a visited node of `r`.
fn order_contains(r: &Vec<(usize, Option<usize>)>, v: usize) -> (b: bool)
    ensures
        b == visited_in(r@, v),
{
    let n = r.len();
    let mut i: usize = 0;
    while i < n
        invariant
            n == r@.len(),
            i <= n,
            forall|j: int| 0 <= j < i ==> (#[trigger] r@[j]).0 != v,
        decreases n - i,
    {
        if r[i].0 == v {
            return true;
        }
        i += 1;
    }
    false
}

proof fn lemma_order_len(r: Seq<(usize, Option<usize>)>, dom: Set<usize>)
    requires
        forall|i: int, j: int| 0 <= i < j < r.len() ==> (#[trigger] r[i]).0 != (#[trigger] r[j]).0,
        forall|i: int| 0 <= i < r.len() ==> dom.contains((#[trigger] r[i]).0),
        dom.finite(),
    ensures
        r.len() <= dom.len(),
{
    let firsts = r.map_values(|p: (usize, Option<usize>)| p.0);
    assert forall|i: int, j: int| 0 <= i < j < firsts.len() implies firsts[i] != firsts[j] by {
        assert(firsts[i] == r[i].0 && firsts[j] == r[j].0);
    }
    assert(firsts.no_duplicates());
    firsts.unique_seq_to_set();
    assert forall|n: usize| firsts.to_set().contains(n) implies dom.contains(n) by {
        let i = choose|i: int| 0 <= i < firsts.len() && firsts[i] == n;
        assert(r[i].0 == n);
    }
    vstd::set_lib::lemma_len_subset(firsts.to_set(), dom);
}

/// Breadth-first traversal order from `source`: level order, each node
/// visited when dequeued, neighbors enqueued left to right. Visits every
/// node reachable from the source exactly once, the source first with no
/// parent, and nothing else.
pub fn bfs_order<V, E>(g: &AdjListGraph<V, E>, source: usize) -> (r: Vec<(usize, Option<usize>)>)
    requires
        g.wf(),
        g.spec_nodes().dom().contains(source),
    ensures
        valid_visit_order(g, source, r@),
        visits_reachable(g, source, r@),
        bfs_parents_monotone(g, r@),
{
    proof {
        g.lemma_wf();
        lemma_reachable_refl(g.spec_adj(), source);
    }
    let mut r: Vec<(usize, Option<usize>)> = Vec::new();
    r.push((source, None));
    let mut head: usize = 0;
    while head < r.len()
        invariant
            g.wf(),
            g.spec_nodes().dom().contains(source),
            head <= r@.len(),
            valid_visit_order(g, source, r@),
            forall|i: int| 0 <= i < r@.len() ==> reachable(g.spec_adj(), source, (#[trigger] r@[i]).0),
            forall|j: int, v: usize|
                0 <= j < head && #[trigger] adj_step(g.spec_adj(), r@[j].0, v) ==> visited_in(
                    r@,
                    v,
                ),
            forall|i: int, j: int| 1 <= i < r@.len() && #[trigger] parent_at(g, r@, i, j) ==> j
                <= head,
            bfs_parents_monotone(g, r@),
        decreases g.spec_nodes().dom().len() - head,
    {
        proof {
            g.lemma_wf();
            lemma_order_len(r@, g.spec_nodes().dom());
        }
        let u = r[head].0;
        let neigh = g.adj_iter(u);
        let m = neigh.len();
        let mut k: usize = 0;
        while k < m
            invariant
                g.wf(),
                g.spec_nodes().dom().contains(source),
                head < r@.len(),
                r@[head as int].0 == u,
                m == neigh@.len(),
                k <= m,
                neigh@ == g.spec_adj()[u],
                g.spec_adj().dom().contains(u),
                valid_visit_order(g, source, r@),
                forall|i: int|
                    0 <= i < r@.len() ==> reachable(g.spec_adj(), source, (#[trigger] r@[i]).0),
                forall|j: int, v: usize|
                    0 <= j < head && #[trigger] adj_step(g.spec_adj(), r@[j].0, v) ==> visited_in(
                        r@,
                        v,
                    ),
                forall|q: int| 0 <= q < k ==> visited_in(r@, #[trigger] neigh@[q]),
                forall|i: int, j: int|
                    1 <= i < r@.len() && #[trigger] parent_at(g, r@, i, j) ==> j <= head,
                bfs_parents_monotone(g, r@),
            decreases m - k,
        {
            let v = neigh[k];
            if !order_contains(&r, v) {
                proof {
                    assert(adj_step(g.spec_adj(), u, v));
                    lemma_reachable_step(g.spec_adj(), source, u, v);
                    g.lemma_wf();
                }
                let ghost old_r = r@;
                r.push((v, Some(u)));
                proof {
                    assert forall|i: int| 1 <= i < r@.len() implies #[trigger] parent_edge_before(
                        g,
                        r@,
                        i,
                    ) by {
                        if i < old_r.len() {
                            assert(parent_edge_before(g, old_r, i));
                            let j = choose|j: int|
                                0 <= j < i && (#[trigger] old_r[j]).0 == old_r[i].1->Some_0
                                    && adj_step(g.spec_adj(), old_r[i].1->Some_0, old_r[i].0);
                            assert(r@[j].0 == r@[i].1->Some_0);
                        } else {
                            assert(r@[head as int].0 == r@[i].1->Some_0);
                            assert(adj_step(g.spec_adj(), u, v));
                        }
                    }
                    assert forall|j: int, w: usize|
                        0 <= j < head && #[trigger] adj_step(g.spec_adj(), r@[j].0, w)
                        implies visited_in(r@, w) by {
                        assert(adj_step(g.spec_adj(), old_r[j].0, w));
                        assert(visited_in(old_r, w));
                        let i = choose|i: int| 0 <= i < old_r.len() && (#[trigger] old_r[i]).0 == w;
                        assert(r@[i].0 == w);
                    }
                    assert forall|q: int| 0 <= q < k + 1 implies visited_in(
                        r@,
                        #[trigger] neigh@[q],
                    ) by {
                        if q < k {
                            assert(visited_in(old_r, neigh@[q]));
                            let i = choose|i: int|
                                0 <= i < old_r.len() && (#[trigger] old_r[i]).0 == neigh@[q];
                            assert(r@[i].0 == neigh@[q]);
                        } else {
                            assert(r@[r@.len() - 1].0 == v);
                        }
                    }
                    assert forall|i: int, j: int|
                        1 <= i < r@.len() && #[trigger] parent_at(g, r@, i, j) implies j
                        <= head by {
                        if i < old_r.len() {
                            assert(parent_at(g, old_r, i, j));
                        } else {
                            assert(r@[j].0 == u);
                            assert(r@[head as int].0 == u);
                            if j != head {
                                assert(r@[j].0 != r@[head as int].0);
                                assert(false);
                            }
                        }
                    }
                    assert forall|i1: int, i2: int, j1: int, j2: int|
                        1 <= i1 <= i2 < r@.len() && #[trigger] parent_at(g, r@, i1, j1)
                            && #[trigger] parent_at(g, r@, i2, j2) implies j1 <= j2 by {
                        if i2 < old_r.len() {
                            assert(parent_at(g, old_r, i1, j1));
                            assert(parent_at(g, old_r, i2, j2));
                        } else {
                            assert(r@[j2].0 == u);
                            assert(r@[head as int].0 == u);
                            if j2 != head {
                                assert(r@[j2].0 != r@[head as int].0);
                                assert(false);
                            }
                            if i1 < old_r.len() {
                                assert(parent_at(g, old_r, i1, j1));
                            } else {
                                assert(r@[j1].0 == u);
                                if j1 != head {
                                    assert(r@[j1].0 != r@[head as int].0);
                                    assert(false);
                                }
                            }
                        }
                    }
                }
            }
            k += 1;
        }
        head += 1;
    }
    proof {
        assert forall|n: usize| #[trigger]
            reachable(g.spec_adj(), source, n) implies visited_in(r@, n) by {
            let vis = Set::new(|w: usize| visited_in(r@, w));
            assert(r@[0].0 == source);
            assert(vis.contains(source));
            assert forall|a: usize, b: usize|
                vis.contains(a) && #[trigger] adj_step(g.spec_adj(), a, b) implies vis.contains(
                b,
            ) by {
                let i = choose|i: int| 0 <= i < r@.len() && (#[trigger] r@[i]).0 == a;
                assert(adj_step(g.spec_adj(), r@[i].0, b));
                assert(visited_in(r@, b));
            }
            lemma_closed_reachable(g.spec_adj(), vis, source, n);
        }
    }
    r
}

/// Entry `j` of the visit sequence is the visit position of pending entry
/// `t`'s recorded parent.
spec fn entry_parent(r: Seq<(usize, Option<usize>)>, t: (usize, Option<usize>), j: int) -> bool {
    &&& t.1 is Some
    &&& 0 <= j < r.len()
    &&& r[j].0 == t.1->Some_0
}

/// Depth-first traversal order from `source`, computed with an explicit
/// stack while preserving the preorder of the recursive formulation. Visits
/// every node reachable from the source exactly once, the source first with
/// no parent, and nothing else.
pub fn dfs_order<V, E>(g: &AdjListGraph<V, E>, source: usize) -> (r: Vec<(usize, Option<usize>)>)
    requires
        g.wf(),
        g.spec_nodes().dom().contains(source),
    ensures
        valid_visit_order(g, source, r@),
        visits_reachable(g, source, r@),
        dfs_parent_latest(g, r@),
{
    proof {
        g.lemma_wf();
        lemma_reachable_refl(g.spec_adj(), source);
    }
    let mut r: Vec<(usize, Option<usize>)> = Vec::new();
    let mut stack: Vec<(usize, Option<usize>)> = Vec::new();
    stack.push((source, None));
    while stack.len() > 0
        invariant
            g.wf(),
            g.spec_nodes().dom().contains(source),
            r@.len() == 0 ==> stack@ =~= seq![(source, Option::<usize>::None)],
            r@.len() >= 1 ==> r@[0] == (source, Option::<usize>::None),
            forall|i: int, j: int|
                0 <= i < j < r@.len() ==> (#[trigger] r@[i]).0 != (#[trigger] r@[j]).0,
            forall|i: int| 0 <= i < r@.len() ==> g.spec_nodes().dom().contains((#[trigger] r@[i]).0),
            forall|i: int| 1 <= i < r@.len() ==> (#[trigger] r@[i]).1 is Some,
            forall|i: int| 1 <= i < r@.len() ==> #[trigger] parent_edge_before(g, r@, i),
            forall|i: int| 0 <= i < r@.len() ==> reachable(g.spec_adj(), source, (#[trigger] r@[i]).0),
            forall|s: int|
                0 <= s < stack@.len() ==> g.spec_nodes().dom().contains((#[trigger] stack@[s]).0)
                    && reachable(g.spec_adj(), source, stack@[s].0),
            forall|s: int|
                0 <= s < stack@.len() && (#[trigger] stack@[s]).1 is Some ==> visited_in(
                    r@,
                    stack@[s].1->Some_0,
                ) && adj_step(g.spec_adj(), stack@[s].1->Some_0, stack@[s].0),
            r@.len() >= 1 ==> forall|s: int|
                0 <= s < stack@.len() ==> (#[trigger] stack@[s]).1 is Some,
            forall|a: int, w: usize|
                0 <= a < r@.len() && #[trigger] adj_step(g.spec_adj(), r@[a].0, w) ==> visited_in(
                    r@,
                    w,
                ) || in_stack(stack@, w),
            forall|a: int, w: usize|
                0 <= a < r@.len() && #[trigger] adj_step(g.spec_adj(), r@[a].0, w)
                    && !visited_in(r@, w) ==> exists|s: int|
                    0 <= s < stack@.len() && (#[trigger] stack@[s]) == (w, Some(r@[a].0)),
            forall|s1: int, s2: int, j1: int, j2: int|
                #![trigger entry_parent(r@, stack@[s1], j1), entry_parent(r@, stack@[s2], j2)]
                0 <= s1 < s2 < stack@.len() && stack@[s1].0 == stack@[s2].0 && entry_parent(
                    r@,
                    stack@[s1],
                    j1,
                ) && entry_parent(r@, stack@[s2], j2) ==> j1 <= j2,
            dfs_parent_latest(g, r@),
        decreases g.spec_nodes().dom().len() - r@.len(), stack@.len(),
    {
        proof {
            g.lemma_wf();
            lemma_order_len(r@, g.spec_nodes().dom());
        }
        let ghost old_stack = stack@;
        let (v, p) = stack.pop().unwrap();
        if !order_contains(&r, v) {
            let ghost old_r = r@;
            r.push((v, p));
            proof {
                assert(r@[r@.len() - 1] == (v, p));
                if old_r.len() == 0 {
                    assert(old_stack =~= seq![(source, Option::<usize>::None)]);
                    assert((v, p) == (source, Option::<usize>::None));
                }
                assert forall|i: int| 1 <= i < r@.len() implies #[trigger] parent_edge_before(
                    g,
                    r@,
                    i,
                ) by {
                    if i < old_r.len() {
                        assert(parent_edge_before(g, old_r, i));
                        let j = choose|j: int|
                            0 <= j < i && (#[trigger] old_r[j]).0 == old_r[i].1->Some_0 && adj_step(
                                g.spec_adj(),
                                old_r[i].1->Some_0,
                                old_r[i].0,
                            );
                        assert(r@[j].0 == r@[i].1->Some_0);
                    } else {
                        assert(p is Some);
                        assert(visited_in(old_r, p->Some_0));
                        let j = choose|j: int|
                            0 <= j < old_r.len() && (#[trigger] old_r[j]).0 == p->Some_0;
                        assert(r@[j].0 == r@[i].1->Some_0);
                        assert(adj_step(g.spec_adj(), r@[i].1->Some_0, r@[i].0));
                    }
                }
                assert forall|s: int|
                    0 <= s < stack@.len() && (#[trigger] stack@[s]).1 is Some implies visited_in(
                    r@,
                    stack@[s].1->Some_0,
                ) && adj_step(g.spec_adj(), stack@[s].1->Some_0, stack@[s].0) by {
                    assert(old_stack[s] == stack@[s]);
                    assert(visited_in(old_r, stack@[s].1->Some_0));
                    let j = choose|j: int|
                        0 <= j < old_r.len() && (#[trigger] old_r[j]).0 == stack@[s].1->Some_0;
                    assert(r@[j].0 == stack@[s].1->Some_0);
                }
                assert forall|a: int, w: usize|
                    0 <= a < r@.len() - 1 && #[trigger] adj_step(g.spec_adj(), r@[a].0, w)
                    implies visited_in(r@, w) || in_stack(stack@, w) by {
                    assert(adj_step(g.spec_adj(), old_r[a].0, w));
                    if visited_in(old_r, w) {
                        let j = choose|j: int| 0 <= j < old_r.len() && (#[trigger] old_r[j]).0 == w;
                        assert(r@[j].0 == w);
                    } else {
                        assert(in_stack(old_stack, w));
                        let t = choose|t: int|
                            0 <= t < old_stack.len() && (#[trigger] old_stack[t]).0 == w;
                        if t < old_stack.len() - 1 {
                            assert(stack@[t].0 == w);
                        } else {
                            assert(old_stack[t].0 == v);
                            assert(r@[r@.len() - 1].0 == v);
                        }
                    }
                }
                assert(!visited_in(old_r, v));
                assert(old_stack[old_stack.len() - 1] == (v, p));
                assert forall|i: int, j: int, a: int|
                    1 <= i < r@.len() && #[trigger] parent_at(g, r@, i, j) && 0 <= a < i
                        && #[trigger] adj_step(g.spec_adj(), r@[a].0, r@[i].0) implies a <= j by {
                    if i < old_r.len() {
                        assert(parent_at(g, old_r, i, j));
                        assert(adj_step(g.spec_adj(), old_r[a].0, old_r[i].0));
                    } else {
                        assert(r@[i] == (v, p));
                        assert(p is Some);
                        let pn = p->Some_0;
                        assert(r@[j].0 == pn);
                        assert(j < old_r.len());
                        assert(adj_step(g.spec_adj(), old_r[a].0, v));
                        let s = choose|s: int|
                            0 <= s < old_stack.len() && (#[trigger] old_stack[s]) == (
                            v,
                            Some(old_r[a].0),
                            );
                        if s == old_stack.len() - 1 {
                            assert(pn == old_r[a].0);
                            assert(r@[a].0 == pn);
                            if a != j {
                                assert(r@[a].0 != r@[j].0);
                                assert(false);
                            }
                        } else {
                            assert(entry_parent(old_r, old_stack[s], a));
                            assert(entry_parent(old_r, old_stack[old_stack.len() - 1], j));
                            assert(old_stack[s].0 == old_stack[old_stack.len() - 1].0);
                        }
                    }
                }
                assert forall|s1: int, s2: int, j1: int, j2: int|
                    #![trigger entry_parent(r@, stack@[s1], j1), entry_parent(r@, stack@[s2], j2)]
                    0 <= s1 < s2 < stack@.len() && stack@[s1].0 == stack@[s2].0 && entry_parent(
                        r@,
                        stack@[s1],
                        j1,
                    ) && entry_parent(r@, stack@[s2], j2) implies j1 <= j2 by {
                    assert(stack@[s1] == old_stack[s1]);
                    assert(stack@[s2] == old_stack[s2]);
                    assert(visited_in(old_r, stack@[s1].1->Some_0));
                    assert(visited_in(old_r, stack@[s2].1->Some_0));
                    if j1 == r@.len() - 1 {
                        assert(r@[j1].0 == v);
                        assert(visited_in(old_r, v));
                        assert(false);
                    }
                    if j2 == r@.len() - 1 {
                        assert(r@[j2].0 == v);
                        assert(visited_in(old_r, v));
                        assert(false);
                    }
                    assert(entry_parent(old_r, old_stack[s1], j1));
                    assert(entry_parent(old_r, old_stack[s2], j2));
                }
                assert forall|a: int, w: usize|
                    0 <= a < r@.len() - 1 && #[trigger] adj_step(g.spec_adj(), r@[a].0, w)
                        && !visited_in(r@, w) implies exists|s: int|
                    0 <= s < stack@.len() && (#[trigger] stack@[s]) == (w, Some(r@[a].0)) by {
                    assert(adj_step(g.spec_adj(), old_r[a].0, w));
                    assert(!visited_in(old_r, w)) by {
                        if visited_in(old_r, w) {
                            let x = choose|x: int|
                                0 <= x < old_r.len() && (#[trigger] old_r[x]).0 == w;
                            assert(r@[x].0 == w);
                            assert(false);
                        }
                    }
                    let s = choose|s: int|
                        0 <= s < old_stack.len() && (#[trigger] old_stack[s]) == (
                        w,
                        Some(old_r[a].0),
                        );
                    if s == old_stack.len() - 1 {
                        assert(w == v);
                        assert(r@[r@.len() - 1].0 == v);
                        assert(visited_in(r@, v));
                        assert(false);
                    }
                    assert(stack@[s] == (w, Some(r@[a].0)));
                }
            }
            let neigh = g.adj_iter(v);
            let mut k: usize = neigh.len();
            while k > 0
                invariant
                    g.wf(),
                    g.spec_nodes().dom().contains(source),
                    k <= neigh@.len(),
                    neigh@ == g.spec_adj()[v],
                    g.spec_adj().dom().contains(v),
                    r@.len() >= 1,
                    r@[0] == (source, Option::<usize>::None),
                    r@[r@.len() - 1].0 == v,
                    visited_in(r@, v),
                    forall|i: int, j: int|
                        0 <= i < j < r@.len() ==> (#[trigger] r@[i]).0 != (#[trigger] r@[j]).0,
                    forall|i: int|
                        0 <= i < r@.len() ==> g.spec_nodes().dom().contains((#[trigger] r@[i]).0),
                    forall|i: int| 1 <= i < r@.len() ==> (#[trigger] r@[i]).1 is Some,
                    forall|i: int| 1 <= i < r@.len() ==> #[trigger] parent_edge_before(g, r@, i),
                    forall|i: int|
                        0 <= i < r@.len() ==> reachable(
                            g.spec_adj(),
                            source,
                            (#[trigger] r@[i]).0,
                        ),
                    forall|s: int|
                        0 <= s < stack@.len() ==> g.spec_nodes().dom().contains(
                            (#[trigger] stack@[s]).0,
                        ) && reachable(g.spec_adj(), source, stack@[s].0),
                    forall|s: int|
                        0 <= s < stack@.len() && (#[trigger] stack@[s]).1 is Some ==> visited_in(
                            r@,
                            stack@[s].1->Some_0,
                        ) && adj_step(g.spec_adj(), stack@[s].1->Some_0, stack@[s].0),
                    forall|s: int| 0 <= s < stack@.len() ==> (#[trigger] stack@[s]).1 is Some,
                    forall|a: int, w: usize|
                        0 <= a < r@.len() - 1 && #[trigger] adj_step(g.spec_adj(), r@[a].0, w)
                            ==> visited_in(r@, w) || in_stack(stack@, w),
                    forall|q: int|
                        k <= q < neigh@.len() ==> visited_in(r@, #[trigger] neigh@[q])
                            || in_stack(stack@, neigh@[q]),
                    forall|q: int|
                        k <= q < neigh@.len() ==> visited_in(r@, #[trigger] neigh@[q]) || exists|
                            s: int,
                        | 0 <= s < stack@.len() && (#[trigger] stack@[s]) == (neigh@[q], Some(v)),
                    forall|a: int, w: usize|
                        0 <= a < r@.len() - 1 && #[trigger] adj_step(g.spec_adj(), r@[a].0, w)
                            && !visited_in(r@, w) ==> exists|s: int|
                            0 <= s < stack@.len() && (#[trigger] stack@[s]) == (w, Some(r@[a].0)),
                    forall|s1: int, s2: int, j1: int, j2: int|
                        #![trigger entry_parent(r@, stack@[s1], j1), entry_parent(r@, stack@[s2], j2)]
                        0 <= s1 < s2 < stack@.len() && stack@[s1].0 == stack@[s2].0 && entry_parent(
                            r@,
                            stack@[s1],
                            j1,
                        ) && entry_parent(r@, stack@[s2], j2) ==> j1 <= j2,
                    dfs_parent_latest(g, r@),
                decreases k,
            {
                k -= 1;
                let w = neigh[k];
                if !order_contains(&r, w) {
                    proof {
                        assert(adj_step(g.spec_adj(), v, w));
                        g.lemma_wf();
                        lemma_reachable_step(g.spec_adj(), source, v, w);
                    }
                    let ghost old_stack2 = stack@;
                    stack.push((w, Some(v)));
                    proof {
                        assert(stack@[stack@.len() - 1] == (w, Some(v)));
                        assert forall|a: int, u2: usize|
                            0 <= a < r@.len() - 1 && #[trigger] adj_step(
                                g.spec_adj(),
                                r@[a].0,
                                u2,
                            ) implies visited_in(r@, u2) || in_stack(stack@, u2) by {
                            if !visited_in(r@, u2) {
                                assert(in_stack(old_stack2, u2));
                                let s = choose|s: int|
                                    0 <= s < old_stack2.len() && (#[trigger] old_stack2[s]).0 == u2;
                                assert(stack@[s].0 == u2);
                            }
                        }
                        assert forall|q: int|
                            k <= q < neigh@.len() implies visited_in(r@, #[trigger] neigh@[q])
                            || in_stack(stack@, neigh@[q]) by {
                            if q == k {
                                assert(stack@[stack@.len() - 1].0 == w);
                            } else if !visited_in(r@, neigh@[q]) {
                                assert(in_stack(old_stack2, neigh@[q]));
                                let s = choose|s: int|
                                    0 <= s < old_stack2.len() && (#[trigger] old_stack2[s]).0
                                        == neigh@[q];
                                assert(stack@[s].0 == neigh@[q]);
                            }
                        }
                        assert forall|q: int|
                            k <= q < neigh@.len() implies visited_in(r@, #[trigger] neigh@[q])
                            || exists|s: int|
                            0 <= s < stack@.len() && (#[trigger] stack@[s]) == (
                            neigh@[q],
                            Some(v),
                        ) by {
                            if q == k {
                                assert(stack@[stack@.len() - 1] == (w, Some(v)));
                            } else if !visited_in(r@, neigh@[q]) {
                                let s = choose|s: int|
                                    0 <= s < old_stack2.len() && (#[trigger] old_stack2[s]) == (
                                    neigh@[q],
                                    Some(v),
                                    );
                                assert(stack@[s] == (neigh@[q], Some(v)));
                            }
                        }
                        assert forall|a: int, w2: usize|
                            0 <= a < r@.len() - 1 && #[trigger] adj_step(
                                g.spec_adj(),
                                r@[a].0,
                                w2,
                            ) && !visited_in(r@, w2) implies exists|s: int|
                            0 <= s < stack@.len() && (#[trigger] stack@[s]) == (
                            w2,
                            Some(r@[a].0),
                        ) by {
                            let s = choose|s: int|
                                0 <= s < old_stack2.len() && (#[trigger] old_stack2[s]) == (
                                w2,
                                Some(r@[a].0),
                                );
                            assert(stack@[s] == (w2, Some(r@[a].0)));
                        }
                        assert forall|s1: int, s2: int, j1: int, j2: int|
                            #![trigger entry_parent(r@, stack@[s1], j1), entry_parent(r@, stack@[s2], j2)]
                            0 <= s1 < s2 < stack@.len() && stack@[s1].0 == stack@[s2].0
                                && entry_parent(r@, stack@[s1], j1) && entry_parent(
                                r@,
                                stack@[s2],
                                j2,
                            ) implies j1 <= j2 by {
                            if s2 == stack@.len() - 1 {
                                assert(stack@[s2] == (w, Some(v)));
                                assert(r@[j2].0 == v);
                                assert(r@[r@.len() - 1].0 == v);
                                if j2 != r@.len() - 1 {
                                    assert(r@[j2].0 != r@[r@.len() - 1].0);
                                    assert(false);
                                }
                            } else {
                                assert(stack@[s1] == old_stack2[s1]);
                                assert(stack@[s2] == old_stack2[s2]);
                                assert(entry_parent(r@, old_stack2[s1], j1));
                                assert(entry_parent(r@, old_stack2[s2], j2));
                            }
                        }
                    }
                }
            }
            proof {
                assert forall|a: int, w: usize|
                    0 <= a < r@.len() && #[trigger] adj_step(g.spec_adj(), r@[a].0, w)
                    implies visited_in(r@, w) || in_stack(stack@, w) by {
                    if a == r@.len() - 1 {
                        let q = choose|q: int|
                            0 <= q < neigh@.len() && (#[trigger] neigh@[q]) == w;
                    } else {
                    }
                }
                assert forall|a: int, w: usize|
                    0 <= a < r@.len() && #[trigger] adj_step(g.spec_adj(), r@[a].0, w)
                        && !visited_in(r@, w) implies exists|s: int|
                    0 <= s < stack@.len() && (#[trigger] stack@[s]) == (w, Some(r@[a].0)) by {
                    if a == r@.len() - 1 {
                        assert(r@[a].0 == v);
                        let q = choose|q: int|
                            0 <= q < neigh@.len() && (#[trigger] neigh@[q]) == w;
                    } else {
                    }
                }
            }
        } else {
            proof {
                assert forall|a: int, w: usize|
                    0 <= a < r@.len() && #[trigger] adj_step(g.spec_adj(), r@[a].0, w)
                    implies visited_in(r@, w) || in_stack(stack@, w) by {
                    if !visited_in(r@, w) {
                        assert(in_stack(old_stack, w));
                        let s = choose|s: int|
                            0 <= s < old_stack.len() && (#[trigger] old_stack[s]).0 == w;
                        if s < old_stack.len() - 1 {
                            assert(stack@[s].0 == w);
                        } else {
                            assert(old_stack[s].0 == v);
                            assert(visited_in(r@, v));
                        }
                    }
                }
                assert(old_stack[old_stack.len() - 1] == (v, p));
                assert forall|a: int, w: usize|
                    0 <= a < r@.len() && #[trigger] adj_step(g.spec_adj(), r@[a].0, w)
                        && !visited_in(r@, w) implies exists|s: int|
                    0 <= s < stack@.len() && (#[trigger] stack@[s]) == (w, Some(r@[a].0)) by {
                    let s = choose|s: int|
                        0 <= s < old_stack.len() && (#[trigger] old_stack[s]) == (
                        w,
                        Some(r@[a].0),
                        );
                    if s == old_stack.len() - 1 {
                        assert(w == v);
                        assert(visited_in(r@, v));
                        assert(false);
                    }
                    assert(stack@[s] == (w, Some(r@[a].0)));
                }
                assert forall|s1: int, s2: int, j1: int, j2: int|
                    #![trigger entry_parent(r@, stack@[s1], j1), entry_parent(r@, stack@[s2], j2)]
                    0 <= s1 < s2 < stack@.len() && stack@[s1].0 == stack@[s2].0 && entry_parent(
                        r@,
                        stack@[s1],
                        j1,
                    ) && entry_parent(r@, stack@[s2], j2) implies j1 <= j2 by {
                    assert(stack@[s1] == old_stack[s1]);
                    assert(stack@[s2] == old_stack[s2]);
                    assert(entry_parent(r@, old_stack[s1], j1));
                    assert(entry_parent(r@, old_stack[s2], j2));
                }
            }
        }
        proof {
            g.lemma_wf();
            lemma_order_len(r@, g.spec_nodes().dom());
        }
    }
    proof {
        assert(r@.len() >= 1);
        assert forall|n: usize| #[trigger]
            reachable(g.spec_adj(), source, n) implies visited_in(r@, n) by {
            let vis = Set::new(|w: usize| visited_in(r@, w));
            assert(r@[0].0 == source);
            assert(vis.contains(source));
            assert forall|a: usize, b: usize|
                vis.contains(a) && #[trigger] adj_step(g.spec_adj(), a, b) implies vis.contains(
                b,
            ) by {
                let i = choose|i: int| 0 <= i < r@.len() && (#[trigger] r@[i]).0 == a;
                assert(adj_step(g.spec_adj(), r@[i].0, b));
                assert(visited_in(r@, b));
            }
            lemma_closed_reachable(g.spec_adj(), vis, source, n);
        }
    }
    r
}

/// Depth-first traversal from `source`, invoking the visitor once per
/// entry of the depth-first order, and returning that order; the returned
/// sequence is exactly what `dfs_order` yields, entry by entry.
pub fn dfs_from<T: DFSVisitor, V, E>(g: &AdjListGraph<V, E>, visitor: &mut T, source: usize) -> (r:
    Vec<(usize, Option<usize>)>)
    requires
        g.wf(),
        g.spec_nodes().dom().contains(source),
    ensures
        valid_visit_order(g, source, r@),
        visits_reachable(g, source, r@),
        dfs_parent_latest(g, r@),
{
    let order = dfs_order(g, source);
    let n = order.len();
    let mut i: usize = 0;
    while i < n
        invariant
            n == order@.len(),
            i <= n,
        decreases n - i,
    {
        let (node, parent) = order[i];
        visitor.visit(node, parent);
        i += 1;
    }
    order
}

/// Depth-first traversal from a deterministically chosen source: the
/// minimum node id. On an empty graph the visitor is never called and the
/// returned order is empty; otherwise the traversal behaves exactly as
/// `dfs_from` from the minimum node id, and nodes unreachable from it are
/// not visited.
pub fn dfs<T: DFSVisitor, V, E>(g: &AdjListGraph<V, E>, visitor: &mut T) -> (r: Vec<
    (usize, Option<usize>),
>)
    requires
        g.wf(),
    ensures
        g.spec_nodes().dom().len() == 0 ==> r@.len() == 0,
        g.spec_nodes().dom().len() > 0 ==> exists|s: usize|
            g.spec_nodes().dom().contains(s) && (forall|n: usize| #[trigger]
                g.spec_nodes().dom().contains(n) ==> s <= n) && valid_visit_order(g, s, r@)
                && visits_reachable(g, s, r@) && dfs_parent_latest(g, r@),
{
    match min_node(g) {
        Some(source) => {
            let r = dfs_from(g, visitor, source);
            proof {
                g.lemma_wf();
                assert(g.spec_nodes().dom().len() > 0) by {
                    if g.spec_nodes().dom().len() == 0 {
                        g.spec_nodes().dom().lemma_len0_is_empty();
                        assert(false);
                    }
                }
                assert(g.spec_nodes().dom().contains(source) && (forall|n: usize| #[trigger]
                    g.spec_nodes().dom().contains(n) ==> source <= n) && valid_visit_order(
                    g,
                    source,
                    r@,
                ) && visits_reachable(g, source, r@) && dfs_parent_latest(g, r@));
            }
            r
        },
        None => Vec::new(),
    }
}

/// Breadth-first traversal from `source`, invoking the visitor once per
/// entry of the level order, and returning that order; the returned
/// sequence is exactly what `bfs_order` yields, entry by entry.
pub fn bfs<T: DFSVisitor, V, E>(g: &AdjListGraph<V, E>, visitor: &mut T, source: usize) -> (r: Vec<
    (usize, Option<usize>),
>)
    requires
        g.wf(),
        g.spec_nodes().dom().contains(source),
    ensures
        valid_visit_order(g, source, r@),
        visits_reachable(g, source, r@),
        bfs_parents_monotone(g, r@),
{
    let order = bfs_order(g, source);
    let n = order.len();
    let mut i: usize = 0;
    while i < n
        invariant
            n == order@.len(),
            i <= n,
        decreases n - i,
    {
        let (node, parent) = order[i];
        visitor.visit(node, parent);
        i += 1;
    }
    order
}

/// Node `w` occurs as the candidate node of some frontier entry.
pub open spec fn in_frontier<E>(pq: Seq<(usize, usize, Option<E>)>, w: usize) -> bool {
    exists|s: int| 0 <= s < pq.len() && (#[trigger] pq[s]).0 == w
}

/// A frontier entry `(candidate, parent, payload)` is sound: the candidate
/// is a node of `g` reachable from the source, the parent is already in the
/// tree, and the connecting edge exists in `g`.
pub open spec fn frontier_entry_ok<V, E>(
    g: &AdjListGraph<V, E>,
    mst: &AdjListGraph<V, E>,
    source: usize,
    t: (usize, usize, Option<E>),
) -> bool {
    &&& g.spec_nodes().dom().contains(t.0)
    &&& mst.spec_nodes().dom().contains(t.1)
    &&& g.spec_edges().dom().contains(spec_canon(false, t.1, t.0))
    &&& reachable(g.spec_adj(), source, t.0)
}

/// The tree under construction is a sound partial result: undirected, its
/// nodes a subset of `g`'s with identical payloads and all reachable from
/// the source, its edges a subset of `g`'s with identical payloads, and one
/// fewer edge than it has nodes.
pub open spec fn partial_tree_ok<V, E>(
    g: &AdjListGraph<V, E>,
    mst: &AdjListGraph<V, E>,
    source: usize,
) -> bool {
    &&& mst.wf()
    &&& !mst.spec_directed()
    &&& mst.spec_nodes().dom().contains(source)
    &&& forall|k: usize| #[trigger]
        mst.spec_nodes().dom().contains(k) ==> g.spec_nodes().dom().contains(k)
            && mst.spec_nodes()[k] == g.spec_nodes()[k] && reachable(g.spec_adj(), source, k)
            && reachable(mst.spec_adj(), source, k)
    &&& forall|k: (usize, usize)| #[trigger]
        mst.spec_edges().dom().contains(k) ==> g.spec_edges().dom().contains(k)
            && mst.spec_edges()[k] == g.spec_edges()[k]
    &&& mst.spec_edges().dom().len() + 1 == mst.spec_nodes().dom().len()
}

/// `a` orders strictly before `b` as a pending-edge weight: an absent
/// payload before any present one, present payloads by ascending weight.
/// Both spanning-tree algorithms select pending edges by this order.
pub open spec fn opt_weight_lt<E: Weight>(a: Option<E>, b: Option<E>) -> bool {
    match (a, b) {
        (Option::None, Option::Some(_)) => true,
        (Option::Some(x), Option::Some(y)) => x.spec_weight() < y.spec_weight(),
        _ => false,
    }
}

/// Whether `a` orders strictly before `b` as a pending-edge weight.
fn lighter<E: Weight>(a: &Option<E>, b: &Option<E>) -> (r: bool)
    ensures
        r == opt_weight_lt(*a, *b),
{
    match (a, b) {
        (Option::None, Option::Some(_)) => true,
        (Option::Some(x), Option::Some(y)) => x.weight() < y.weight(),
        _ => false,
    }
}

/// Prim's algorithm: a minimum spanning tree of a connected, undirected,
/// weighted graph, grown from the minimum node id with a lazy-deletion
/// frontier ordered by ascending edge weight. Fails with `NotUndirected`
/// on a directed graph, and with `Disconnected` when the frontier empties
/// before every node is spanned. The result contains every node of `g` with
/// its payload and a subset of `g`'s edges with their payloads, one fewer
/// than it has nodes.
pub fn prim<V: Copy, E: Copy + Weight>(g: &AdjListGraph<V, E>) -> (r: Result<
    AdjListGraph<V, E>,
    MstError,
>)
    requires
        g.wf(),
    ensures
        g.spec_directed() ==> r === Result::Err(MstError::NotUndirected),
        !g.spec_directed() ==> match r {
            Result::Ok(t) => {
                &&& t.wf()
                &&& !t.spec_directed()
                &&& t.spec_nodes() == g.spec_nodes()
                &&& forall|k: (usize, usize)| #[trigger]
                    t.spec_edges().dom().contains(k) ==> g.spec_edges().dom().contains(k)
                        && t.spec_edges()[k] == g.spec_edges()[k]
                &&& t.spec_edges().dom().len() == if g.spec_nodes().dom().len() == 0 {
                    0int
                } else {
                    g.spec_nodes().dom().len() - 1
                }
                &&& g.spec_nodes().dom().len() > 0 ==> exists|s: usize|
                    g.spec_nodes().dom().contains(s) && forall|m: usize|
                        g.spec_nodes().dom().contains(m) ==> reachable(g.spec_adj(), s, m)
                            && reachable(t.spec_adj(), s, m)
            },
            Result::Err(e) => {
                &&& e == MstError::Disconnected
                &&& exists|s: usize, m: usize|
                    g.spec_nodes().dom().contains(s) && g.spec_nodes().dom().contains(m)
                        && !reachable(g.spec_adj(), s, m)
            },
        },
{
    if g.is_directed() {
        return Err(MstError::NotUndirected);
    }
    let n = g.size();
    let mut mst: AdjListGraph<V, E> = AdjListGraph::new(false);
    if n == 0 {
        proof {
            g.lemma_wf();
            g.spec_nodes().dom().lemma_len0_is_empty();
            assert(g.spec_nodes() =~= Map::<usize, Option<V>>::empty());
            assert(mst.spec_nodes() == g.spec_nodes());
            assert(mst.spec_edges().dom() =~= Set::<(usize, usize)>::empty());
        }
        return Ok(mst);
    }
    proof {
        g.lemma_wf();
    }
    let source = min_node(g).unwrap();
    proof {
        lemma_reachable_refl(g.spec_adj(), source);
    }
    g.copy_node_to(&mut mst, source);
    proof {
        mst.lemma_wf();
        assert(mst.spec_nodes().dom() =~= Set::<usize>::empty().insert(source));
        assert(mst.spec_edges().dom() =~= Set::<(usize, usize)>::empty());
        assert(mst.spec_edges().dom().len() == 0);
        assert(mst.spec_nodes().dom().len() == 1);
        assert(mst.spec_adj().dom().contains(source));
        lemma_reachable_refl(mst.spec_adj(), source);
    }
    let mut pq: Vec<(usize, usize, Option<E>)> = Vec::new();
    let neigh = g.adj_iter(source);
    let m = neigh.len();
    let mut k: usize = 0;
    while k < m
        invariant
            g.wf(),
            !g.spec_directed(),
            g.spec_nodes().dom().contains(source),
            g.spec_adj().dom().contains(source),
            neigh@ == g.spec_adj()[source],
            m == neigh@.len(),
            k <= m,
            partial_tree_ok(g, &mst, source),
            mst.spec_nodes().dom() =~= Set::<usize>::empty().insert(source),
            forall|s: int|
                0 <= s < pq@.len() ==> frontier_entry_ok(g, &mst, source, #[trigger] pq@[s]),
            forall|q: int|
                0 <= q < k ==> mst.spec_nodes().dom().contains(#[trigger] neigh@[q]) || in_frontier(
                    pq@,
                    neigh@[q],
                ),
        decreases m - k,
    {
        let w = neigh[k];
        if !mst.contains_node(w) {
            proof {
                assert(adj_step(g.spec_adj(), source, w));
                g.lemma_wf();
                lemma_reachable_refl(g.spec_adj(), source);
                lemma_reachable_step(g.spec_adj(), source, source, w);
            }
            let wt = *g.edge_prop(source, w);
            let ghost old_pq = pq@;
            pq.push((w, source, wt));
            proof {
                assert(pq@[pq@.len() - 1].0 == w);
                assert forall|q: int|
                    0 <= q < k + 1 implies mst.spec_nodes().dom().contains(#[trigger] neigh@[q])
                    || in_frontier(pq@, neigh@[q]) by {
                    if q < k && !mst.spec_nodes().dom().contains(neigh@[q]) {
                        let s = choose|s: int|
                            0 <= s < old_pq.len() && (#[trigger] old_pq[s]).0 == neigh@[q];
                        assert(pq@[s].0 == neigh@[q]);
                    }
                }
            }
        }
        k += 1;
    }
    let mut msize: usize = 1;
    while msize < n
        invariant
            g.wf(),
            !g.spec_directed(),
            g.spec_nodes().dom().contains(source),
            n == g.spec_nodes().dom().len(),
            msize == mst.spec_nodes().dom().len(),
            msize <= n,
            partial_tree_ok(g, &mst, source),
            forall|s: int|
                0 <= s < pq@.len() ==> frontier_entry_ok(g, &mst, source, #[trigger] pq@[s]),
            forall|u: usize, w: usize|
                mst.spec_nodes().dom().contains(u) && #[trigger] adj_step(g.spec_adj(), u, w)
                    ==> mst.spec_nodes().dom().contains(w) || in_frontier(pq@, w),
        decreases n - msize, pq@.len(),
    {
        if pq.is_empty() {
            proof {
                g.lemma_wf();
                let dom = g.spec_nodes().dom();
                let vis = mst.spec_nodes().dom();
                assert(vis.len() < dom.len());
                assert(exists|q: usize| dom.contains(q) && !vis.contains(q)) by {
                    if forall|q: usize| dom.contains(q) ==> #[trigger] vis.contains(q) {
                        assert(dom.subset_of(vis));
                        assert(vis.subset_of(dom));
                        assert(vis =~= dom);
                        assert(false);
                    }
                }
                let q = choose|q: usize| dom.contains(q) && !vis.contains(q);
                if reachable(g.spec_adj(), source, q) {
                    assert forall|a: usize, b: usize|
                        vis.contains(a) && #[trigger] adj_step(g.spec_adj(), a, b)
                        implies vis.contains(b) by {
                        assert(!in_frontier(pq@, b));
                    }
                    lemma_closed_reachable(g.spec_adj(), vis, source, q);
                    assert(false);
                }
                assert(!reachable(g.spec_adj(), source, q));
            }
            return Err(MstError::Disconnected);
        }
        let mut best: usize = 0;
        let mut idx: usize = 1;
        while idx < pq.len()
            invariant
                best < pq@.len(),
                idx <= pq@.len(),
                forall|t: int| 0 <= t < idx ==> !opt_weight_lt(#[trigger] pq@[t].2, pq@[best as int].2),
            decreases pq@.len() - idx,
        {
            if lighter(&pq[idx].2, &pq[best].2) {
                best = idx;
            }
            idx += 1;
        }
        proof {
            assert(forall|t: int|
                0 <= t < pq@.len() ==> !opt_weight_lt(#[trigger] pq@[t].2, pq@[best as int].2));
        }
        let ghost old_pq = pq@;
        let entry = pq.swap_remove(best);
        let (v, parent) = (entry.0, entry.1);
        proof {
            assert(old_pq[best as int] == entry);
            assert forall|w: usize| in_frontier(old_pq, w) implies in_frontier(pq@, w) || w
                == v by {
                let s = choose|s: int| 0 <= s < old_pq.len() && (#[trigger] old_pq[s]).0 == w;
                if s != best {
                    if s == old_pq.len() - 1 {
                        assert(pq@[best as int].0 == w);
                    } else {
                        assert(pq@[s].0 == w);
                    }
                }
            }
            assert forall|s: int|
                0 <= s < pq@.len() implies frontier_entry_ok(g, &mst, source, #[trigger] pq@[s]) by {
                if s == best as int {
                    assert(pq@[s] == old_pq[old_pq.len() - 1]);
                } else {
                    assert(pq@[s] == old_pq[s]);
                }
            }
        }
        if !mst.contains_node(v) {
            proof {
                g.lemma_wf();
                mst.lemma_wf();
                assert(g.spec_edges().dom().contains(spec_canon(false, parent, v)));
                assert(g.edge_key(parent, v) == spec_canon(false, parent, v));
                assert(!mst.spec_edges().dom().contains(spec_canon(false, parent, v))) by {
                    let key = spec_canon(false, parent, v);
                    if mst.spec_edges().dom().contains(key) {
                        assert(mst.spec_nodes().dom().contains(key.0)
                            && mst.spec_nodes().dom().contains(key.1));
                        assert(key.0 == v || key.1 == v);
                        assert(false);
                    }
                }
            }
            let ghost old_mst_nodes = mst.spec_nodes();
            let ghost old_mst_edges = mst.spec_edges();
            let ghost old_mst_adj = mst.spec_adj();
            proof {
                assert(old_mst_adj.dom() =~= old_mst_nodes.dom());
                assert(old_mst_nodes.dom().contains(parent));
                assert(reachable(old_mst_adj, source, parent));
            }
            g.copy_edge_to(&mut mst, parent, v);
            msize += 1;
            proof {
                let key = spec_canon(false, parent, v);
                assert(mst.spec_nodes() =~= old_mst_nodes.insert(
                    parent,
                    g.spec_nodes()[parent],
                ).insert(v, g.spec_nodes()[v]));
                assert(old_mst_nodes.insert(parent, g.spec_nodes()[parent]) =~= old_mst_nodes);
                assert(mst.spec_nodes() =~= old_mst_nodes.insert(v, g.spec_nodes()[v]));
                assert(mst.spec_edges() =~= old_mst_edges.insert(key, g.spec_edges()[key]));
                assert(mst.spec_nodes().dom().len() == old_mst_nodes.len() + 1) by {
                    mst.lemma_wf();
                    assert(mst.spec_nodes().dom() =~= old_mst_nodes.dom().insert(v));
                }
                assert(mst.spec_edges().dom().len() == old_mst_edges.dom().len() + 1) by {
                    mst.lemma_wf();
                    assert(mst.spec_edges().dom() =~= old_mst_edges.dom().insert(key));
                }
                let base = ensure_adj(ensure_adj(old_mst_adj, parent), v);
                let a1 = base.insert(parent, base[parent].push(v));
                let new_adj = a1.insert(v, a1[v].push(parent));
                assert(mst.spec_adj() == new_adj);
                assert(parent != v);
                assert(base[parent] == old_mst_adj[parent]);
                assert(new_adj[parent] == base[parent].push(v));
                assert forall|u2: usize| #[trigger]
                    old_mst_adj.dom().contains(u2) implies mst.spec_adj().dom().contains(u2) by {}
                assert forall|u2: usize, w2: usize| #[trigger]
                    adj_step(old_mst_adj, u2, w2) implies adj_step(mst.spec_adj(), u2, w2) by {
                    if u2 == parent {
                        let q = choose|q: int|
                            0 <= q < old_mst_adj[parent].len() && old_mst_adj[parent][q] == w2;
                        assert(new_adj[parent][q] == w2);
                        assert(new_adj[parent].contains(w2));
                    } else if u2 == v {
                        assert(false);
                    } else {
                        assert(new_adj[u2] == old_mst_adj[u2]);
                    }
                }
                assert forall|k2: usize| #[trigger]
                    mst.spec_nodes().dom().contains(k2) implies reachable(
                    mst.spec_adj(),
                    source,
                    k2,
                ) by {
                    if k2 == v {
                        lemma_reachable_mono(old_mst_adj, mst.spec_adj(), source, parent);
                        assert(adj_step(mst.spec_adj(), parent, v)) by {
                            assert(new_adj[parent].last() == v);
                            assert(new_adj[parent].contains(v));
                        }
                        lemma_reachable_step(mst.spec_adj(), source, parent, v);
                    } else {
                        assert(old_mst_nodes.dom().contains(k2));
                        assert(reachable(old_mst_adj, source, k2));
                        lemma_reachable_mono(old_mst_adj, mst.spec_adj(), source, k2);
                    }
                }
            }
            let neigh2 = g.adj_iter(v);
            let m2 = neigh2.len();
            let mut k2: usize = 0;
            while k2 < m2
                invariant
                    g.wf(),
                    !g.spec_directed(),
                    g.spec_nodes().dom().contains(source),
                    n == g.spec_nodes().dom().len(),
                    msize == mst.spec_nodes().dom().len(),
                    msize <= n,
                    g.spec_adj().dom().contains(v),
                    neigh2@ == g.spec_adj()[v],
                    m2 == neigh2@.len(),
                    k2 <= m2,
                    mst.spec_nodes().dom().contains(v),
                    partial_tree_ok(g, &mst, source),
                    forall|s: int|
                        0 <= s < pq@.len() ==> frontier_entry_ok(
                            g,
                            &mst,
                            source,
                            #[trigger] pq@[s],
                        ),
                    forall|u: usize, w: usize|
                        mst.spec_nodes().dom().contains(u) && u != v && #[trigger] adj_step(
                            g.spec_adj(),
                            u,
                            w,
                        ) ==> mst.spec_nodes().dom().contains(w) || in_frontier(pq@, w),
                    forall|q: int|
                        0 <= q < k2 ==> mst.spec_nodes().dom().contains(#[trigger] neigh2@[q])
                            || in_frontier(pq@, neigh2@[q]),
                decreases m2 - k2,
            {
                let w = neigh2[k2];
                if !mst.contains_node(w) {
                    proof {
                        assert(adj_step(g.spec_adj(), v, w));
                        g.lemma_wf();
                        lemma_reachable_step(g.spec_adj(), source, v, w);
                    }
                    let wt = *g.edge_prop(v, w);
                    let ghost old_pq2 = pq@;
                    pq.push((w, v, wt));
                    proof {
                        assert(pq@[pq@.len() - 1].0 == w);
                        assert forall|q: int|
                            0 <= q < k2 + 1 implies mst.spec_nodes().dom().contains(
                            #[trigger] neigh2@[q],
                        ) || in_frontier(pq@, neigh2@[q]) by {
                            if q < k2 && !mst.spec_nodes().dom().contains(neigh2@[q]) {
                                let s = choose|s: int|
                                    0 <= s < old_pq2.len() && (#[trigger] old_pq2[s]).0
                                        == neigh2@[q];
                                assert(pq@[s].0 == neigh2@[q]);
                            }
                        }
                        assert forall|u: usize, w2: usize|
                            mst.spec_nodes().dom().contains(u) && u != v && #[trigger] adj_step(
                                g.spec_adj(),
                                u,
                                w2,
                            ) implies mst.spec_nodes().dom().contains(w2) || in_frontier(
                            pq@,
                            w2,
                        ) by {
                            if !mst.spec_nodes().dom().contains(w2) {
                                let s = choose|s: int|
                                    0 <= s < old_pq2.len() && (#[trigger] old_pq2[s]).0 == w2;
                                assert(pq@[s].0 == w2);
                            }
                        }
                    }
                }
                k2 += 1;
            }
            proof {
                assert forall|u: usize, w: usize|
                    mst.spec_nodes().dom().contains(u) && #[trigger] adj_step(g.spec_adj(), u, w)
                    implies mst.spec_nodes().dom().contains(w) || in_frontier(pq@, w) by {
                    if u == v {
                        let q = choose|q: int|
                            0 <= q < neigh2@.len() && (#[trigger] neigh2@[q]) == w;
                    }
                }
            }
        }
    }
    proof {
        g.lemma_wf();
        let dom = g.spec_nodes().dom();
        let vis = mst.spec_nodes().dom();
        assert(vis.subset_of(dom));
        assert(vis =~= dom) by {
            if exists|q: usize| dom.contains(q) && !vis.contains(q) {
                let q = choose|q: usize| dom.contains(q) && !vis.contains(q);
                assert(vis.subset_of(dom.remove(q)));
                vstd::set_lib::lemma_len_subset(vis, dom.remove(q));
                assert(false);
            }
            assert(dom.subset_of(vis));
        }
        assert(mst.spec_nodes() =~= g.spec_nodes());
        assert forall|m3: usize| g.spec_nodes().dom().contains(m3) implies reachable(
            g.spec_adj(),
            source,
            m3,
        ) by {
            assert(mst.spec_nodes().dom().contains(m3));
        }
    }
    Ok(mst)
}

/// The canonical key `k` occurs in the pending edge list.
pub open spec fn in_edge_list<E>(list: Seq<(usize, usize, Option<E>)>, k: (usize, usize)) -> bool {
    exists|s: int| 0 <= s < list.len() && ((#[trigger] list[s]).0, list[s].1) == k
}

/// `x` is an entry of `old_list` at some position other than `best`.
spec fn entry_from<E>(
    old_list: Seq<(usize, usize, Option<E>)>,
    best: int,
    x: (usize, usize, Option<E>),
) -> bool {
    exists|t: int| 0 <= t < old_list.len() && t != best && (#[trigger] old_list[t]) == x
}

proof fn lemma_pop_list<E>(
    old_list: Seq<(usize, usize, Option<E>)>,
    list: Seq<(usize, usize, Option<E>)>,
    best: int,
)
    requires
        0 <= best < old_list.len(),
        list =~= old_list.update(best, old_list.last()).drop_last(),
        forall|s1: int, s2: int|
            0 <= s1 < s2 < old_list.len() ==> ((#[trigger] old_list[s1]).0, old_list[s1].1) != (
            (#[trigger] old_list[s2]).0,
            old_list[s2].1,
            ),
    ensures
        forall|k: (usize, usize)| #[trigger]
            in_edge_list(old_list, k) ==> in_edge_list(list, k) || k == (
            old_list[best].0,
            old_list[best].1,
            ),
        forall|s: int| 0 <= s < list.len() ==> #[trigger] entry_from(old_list, best, list[s]),
        forall|s1: int, s2: int|
            0 <= s1 < s2 < list.len() ==> ((#[trigger] list[s1]).0, list[s1].1) != (
            (#[trigger] list[s2]).0,
            list[s2].1,
            ),
        !in_edge_list(list, (old_list[best].0, old_list[best].1)),
{
    let key = (old_list[best].0, old_list[best].1);
    assert forall|s: int| 0 <= s < list.len() implies #[trigger] entry_from(
        old_list,
        best,
        list[s],
    ) by {
        if s == best {
            assert(old_list[old_list.len() - 1] == list[s]);
            assert(best < old_list.len() - 1);
        } else {
            assert(old_list[s] == list[s]);
        }
    }
    assert forall|k: (usize, usize)| #[trigger]
        in_edge_list(old_list, k) implies in_edge_list(list, k) || k == key by {
        let s = choose|s: int|
            0 <= s < old_list.len() && ((#[trigger] old_list[s]).0, old_list[s].1) == k;
        if s != best {
            if s == old_list.len() - 1 {
                assert((list[best].0, list[best].1) == k);
            } else {
                assert((list[s].0, list[s].1) == k);
            }
        }
    }
    assert forall|s1: int, s2: int|
        0 <= s1 < s2 < list.len() implies ((#[trigger] list[s1]).0, list[s1].1) != (
        (#[trigger] list[s2]).0,
        list[s2].1,
    ) by {
        if s1 == best {
            assert(list[s1] == old_list[old_list.len() - 1]);
            assert(list[s2] == old_list[s2]);
        } else if s2 == best {
            assert(list[s2] == old_list[old_list.len() - 1]);
            assert(list[s1] == old_list[s1]);
        } else {
            assert(list[s1] == old_list[s1] && list[s2] == old_list[s2]);
        }
    }
    if in_edge_list(list, key) {
        let s = choose|s: int| 0 <= s < list.len() && ((#[trigger] list[s]).0, list[s].1) == key;
        assert(entry_from(old_list, best, list[s]));
        let t = choose|t: int|
            0 <= t < old_list.len() && t != best && (#[trigger] old_list[t]) == list[s];
        if t < best {
            assert(((old_list[t]).0, old_list[t].1) != ((old_list[best]).0, old_list[best].1));
        } else {
            assert(((old_list[best]).0, old_list[best].1) != ((old_list[t]).0, old_list[t].1));
        }
        assert(false);
    }
}

/// Any two keys with the same representative are connected in `adj`.
#[verifier::opaque]
spec fn same_class_reach(adj: Map<usize, Seq<usize>>, m: Map<usize, usize>, dom: Set<usize>) -> bool {
    forall|a: usize, b: usize|
        dom.contains(a) && dom.contains(b) && (#[trigger] m[a]) == (#[trigger] m[b])
            ==> reachable(adj, a, b)
}

/// Any two keys with the same representative are connected through the
/// symmetric closure of adjacency.
#[verifier::opaque]
spec fn same_class_sym(adj: Map<usize, Seq<usize>>, m: Map<usize, usize>, dom: Set<usize>) -> bool {
    forall|a: usize, b: usize|
        dom.contains(a) && dom.contains(b) && (#[trigger] m[a]) == (#[trigger] m[b])
            ==> sym_connected(adj, a, b)
}

proof fn lemma_union_preserves_sym(
    adj: Map<usize, Seq<usize>>,
    dom: Set<usize>,
    old_ds: Map<usize, usize>,
    new_ds: Map<usize, usize>,
    u: usize,
    v: usize,
)
    requires
        same_class_sym(adj, old_ds, dom),
        forall|k: usize| #[trigger]
            dom.contains(k) ==> new_ds[k] == if old_ds[k] == old_ds[v] {
                old_ds[u]
            } else {
                old_ds[k]
            },
        dom.contains(u),
        dom.contains(v),
        sym_connected(adj, u, v),
        sym_connected(adj, v, u),
    ensures
        same_class_sym(adj, new_ds, dom),
{
    reveal(same_class_sym);
    assert forall|a: usize, b: usize|
        dom.contains(a) && dom.contains(b) && (#[trigger] new_ds[a]) == (#[trigger] new_ds[b])
        implies sym_connected(adj, a, b) by {
        if old_ds[a] == old_ds[v] && old_ds[b] == old_ds[v] {
            assert(old_ds[a] == old_ds[b]);
        } else if old_ds[a] == old_ds[v] {
            assert(old_ds[b] == old_ds[u]);
            assert(sym_connected(adj, a, v));
            assert(sym_connected(adj, u, b));
            lemma_sym_trans(adj, a, v, u);
            lemma_sym_trans(adj, a, u, b);
        } else if old_ds[b] == old_ds[v] {
            assert(old_ds[a] == old_ds[u]);
            assert(sym_connected(adj, a, u));
            assert(sym_connected(adj, v, b));
            lemma_sym_trans(adj, a, u, v);
            lemma_sym_trans(adj, a, v, b);
        } else {
            assert(old_ds[a] == old_ds[b]);
        }
    }
}

proof fn lemma_mst_edge_growth(
    old_adj: Map<usize, Seq<usize>>,
    new_adj: Map<usize, Seq<usize>>,
    u: usize,
    v: usize,
)
    requires
        u != v,
        old_adj.dom().contains(u),
        old_adj.dom().contains(v),
        ({
            let a1 = old_adj.insert(u, old_adj[u].push(v));
            new_adj == a1.insert(v, a1[v].push(u))
        }),
    ensures
        new_adj.dom() == old_adj.dom(),
        forall|u2: usize| #[trigger] old_adj.dom().contains(u2) ==> new_adj.dom().contains(u2),
        forall|u2: usize, w2: usize| #[trigger]
            adj_step(old_adj, u2, w2) ==> adj_step(new_adj, u2, w2),
        adj_step(new_adj, u, v),
        adj_step(new_adj, v, u),
{
    let a1 = old_adj.insert(u, old_adj[u].push(v));
    assert(a1[v] == old_adj[v]);
    assert(new_adj[u] == old_adj[u].push(v));
    assert(new_adj[v] == old_adj[v].push(u));
    assert(new_adj.dom() =~= old_adj.dom());
    assert forall|u2: usize, w2: usize| #[trigger]
        adj_step(old_adj, u2, w2) implies adj_step(new_adj, u2, w2) by {
        let q = choose|q: int| 0 <= q < old_adj[u2].len() && old_adj[u2][q] == w2;
        if u2 == u {
            assert(new_adj[u][q] == w2);
            assert(new_adj[u].contains(w2));
        } else if u2 == v {
            assert(new_adj[v][q] == w2);
            assert(new_adj[v].contains(w2));
        } else {
            assert(new_adj[u2] == old_adj[u2]);
        }
    }
    assert(new_adj[u].last() == v);
    assert(new_adj[u].contains(v));
    assert(new_adj[v].last() == u);
    assert(new_adj[v].contains(u));
}

proof fn lemma_same_class_mono(
    adj1: Map<usize, Seq<usize>>,
    adj2: Map<usize, Seq<usize>>,
    m: Map<usize, usize>,
    dom: Set<usize>,
)
    requires
        same_class_reach(adj1, m, dom),
        forall|u: usize| #[trigger] adj1.dom().contains(u) ==> adj2.dom().contains(u),
        forall|u: usize, v: usize| #[trigger] adj_step(adj1, u, v) ==> adj_step(adj2, u, v),
    ensures
        same_class_reach(adj2, m, dom),
{
    reveal(same_class_reach);
    assert forall|a: usize, b: usize|
        dom.contains(a) && dom.contains(b) && (#[trigger] m[a]) == (#[trigger] m[b])
        implies reachable(adj2, a, b) by {
        assert(reachable(adj1, a, b));
        lemma_reachable_mono(adj1, adj2, a, b);
    }
}

proof fn lemma_union_preserves_reach(
    adj: Map<usize, Seq<usize>>,
    dom: Set<usize>,
    old_ds: Map<usize, usize>,
    new_ds: Map<usize, usize>,
    u: usize,
    v: usize,
)
    requires
        same_class_reach(adj, old_ds, dom),
        forall|k: usize| #[trigger]
            dom.contains(k) ==> new_ds[k] == if old_ds[k] == old_ds[v] {
                old_ds[u]
            } else {
                old_ds[k]
            },
        dom.contains(u),
        dom.contains(v),
        reachable(adj, u, v),
        reachable(adj, v, u),
    ensures
        same_class_reach(adj, new_ds, dom),
{
    reveal(same_class_reach);
    assert forall|a: usize, b: usize|
        dom.contains(a) && dom.contains(b) && (#[trigger] new_ds[a]) == (#[trigger] new_ds[b])
        implies reachable(adj, a, b) by {
        if old_ds[a] == old_ds[v] && old_ds[b] == old_ds[v] {
            assert(old_ds[a] == old_ds[b]);
        } else if old_ds[a] == old_ds[v] {
            assert(old_ds[b] == old_ds[u]);
            assert(reachable(adj, a, v));
            assert(reachable(adj, u, b));
            lemma_reachable_trans(adj, a, v, u);
            lemma_reachable_trans(adj, a, u, b);
        } else if old_ds[b] == old_ds[v] {
            assert(old_ds[a] == old_ds[u]);
            assert(reachable(adj, a, u));
            assert(reachable(adj, v, b));
            lemma_reachable_trans(adj, a, u, v);
            lemma_reachable_trans(adj, a, v, b);
        } else {
            assert(old_ds[a] == old_ds[b]);
        }
    }
}

proof fn lemma_union_preserves_done<E>(
    edom: Set<(usize, usize)>,
    old_list: Seq<(usize, usize, Option<E>)>,
    list: Seq<(usize, usize, Option<E>)>,
    dom: Set<usize>,
    old_ds: Map<usize, usize>,
    new_ds: Map<usize, usize>,
    v: usize,
    u: usize,
    key: (usize, usize),
)
    requires
        forall|k: (usize, usize)| #[trigger]
            edom.contains(k) ==> dom.contains(k.0) && dom.contains(k.1),
        forall|k: (usize, usize)| #[trigger]
            edom.contains(k) ==> in_edge_list(old_list, k) || old_ds[k.0] == old_ds[k.1],
        forall|k: (usize, usize)| #[trigger]
            in_edge_list(old_list, k) ==> in_edge_list(list, k) || k == key,
        forall|k: usize| #[trigger]
            dom.contains(k) ==> new_ds[k] == if old_ds[k] == old_ds[v] {
                old_ds[u]
            } else {
                old_ds[k]
            },
        new_ds[key.0] == new_ds[key.1],
    ensures
        forall|k: (usize, usize)| #[trigger]
            edom.contains(k) ==> in_edge_list(list, k) || new_ds[k.0] == new_ds[k.1],
{
    assert forall|k: (usize, usize)| #[trigger]
        edom.contains(k) implies in_edge_list(list, k) || new_ds[k.0] == new_ds[k.1] by {
        if in_edge_list(old_list, k) {
            if k == key {
            }
        } else {
            assert(old_ds[k.0] == old_ds[k.1]);
        }
    }
}


/// The state of Kruskal's main loop: the union-find partitions exactly the
/// nodes and respects every already-processed edge, equal representatives
/// mean connected nodes, the pending list holds distinct edges of `g` not
/// yet in the result, and the result holds `accepted` edges of `g` over all
/// of `g`'s nodes.
#[verifier::opaque]
spec fn kruskal_inv<V, E>(
    g: &AdjListGraph<V, E>,
    ds: DisjointSet,
    mst: AdjListGraph<V, E>,
    list: Seq<(usize, usize, Option<E>)>,
    accepted: int,
) -> bool {
    &&& g.wf()
    &&& !g.spec_directed()
    &&& g.spec_nodes().dom().len() >= 1
    &&& g.spec_nodes().dom().len() <= usize::MAX
    &&& ds.wf()
    &&& ds@.dom() == g.spec_nodes().dom()
    &&& same_class_reach(g.spec_adj(), ds@, ds@.dom())
    &&& same_class_reach(mst.spec_adj(), ds@, ds@.dom())
    &&& mst.spec_adj().dom() == ds@.dom()
    &&& forall|k: (usize, usize)| #[trigger]
        g.spec_edges().dom().contains(k) ==> in_edge_list(list, k) || ds@[k.0] == ds@[k.1]
    &&& forall|s: int|
        0 <= s < list.len() ==> g.spec_edges().dom().contains(
            ((#[trigger] list[s]).0, list[s].1),
        )
    &&& forall|s1: int, s2: int|
        0 <= s1 < s2 < list.len() ==> ((#[trigger] list[s1]).0, list[s1].1) != (
        (#[trigger] list[s2]).0,
        list[s2].1,
        )
    &&& reps(ds@).len() + accepted == g.spec_nodes().dom().len()
    &&& accepted == mst.spec_edges().dom().len()
    &&& mst.wf()
    &&& !mst.spec_directed()
    &&& mst.spec_nodes() == g.spec_nodes()
    &&& forall|k: (usize, usize)| #[trigger]
        mst.spec_edges().dom().contains(k) ==> g.spec_edges().dom().contains(k)
            && mst.spec_edges()[k] == g.spec_edges()[k]
    &&& forall|s: int|
        0 <= s < list.len() ==> !mst.spec_edges().dom().contains(
            ((#[trigger] list[s]).0, list[s].1),
        )
}

/// One round of Kruskal's main loop: remove the lightest pending edge, and
/// accept it into the result when its endpoints lie in different partitions.
#[verifier::rlimit(100)]
fn kruskal_round<V: Copy, E: Copy + Weight>(
    g: &AdjListGraph<V, E>,
    ds: &mut DisjointSet,
    mst: &mut AdjListGraph<V, E>,
    list: &mut Vec<(usize, usize, Option<E>)>,
    accepted: &mut usize,
)
    requires
        kruskal_inv(g, *old(ds), *old(mst), old(list)@, *old(accepted) as int),
        old(list)@.len() > 0,
    ensures
        kruskal_inv(g, *final(ds), *final(mst), final(list)@, *final(accepted) as int),
        final(list)@.len() == old(list)@.len() - 1,
{
    proof {
        reveal(kruskal_inv);
    }
    let mut best: usize = 0;
    let mut idx: usize = 1;
    while idx < list.len()
        invariant
            best < list@.len(),
            idx <= list@.len(),
            forall|t: int| 0 <= t < idx ==> !opt_weight_lt(#[trigger] list@[t].2, list@[best as int].2),
        decreases list@.len() - idx,
    {
        if lighter(&list[idx].2, &list[best].2) {
            best = idx;
        }
        idx += 1;
    }
    proof {
        assert(forall|t: int|
            0 <= t < list@.len() ==> !opt_weight_lt(#[trigger] list@[t].2, list@[best as int].2));
    }
    let ghost old_list = list@;
    let entry = list.swap_remove(best);
    let (u, v) = (entry.0, entry.1);
    let ghost key = (u, v);
    proof {
        assert(old_list[best as int] == entry);
        assert(g.spec_edges().dom().contains(key));
        lemma_pop_list(old_list, list@, best as int);
        assert forall|s: int|
            0 <= s < list@.len() implies g.spec_edges().dom().contains(
            ((#[trigger] list@[s]).0, list@[s].1),
        ) && !mst.spec_edges().dom().contains((list@[s].0, list@[s].1)) by {
            assert(entry_from(old_list, best as int, list@[s]));
            let t = choose|t: int|
                0 <= t < old_list.len() && t != best && (#[trigger] old_list[t]) == list@[s];
            assert(g.spec_edges().dom().contains((old_list[t].0, old_list[t].1)));
            assert(!mst.spec_edges().dom().contains((old_list[t].0, old_list[t].1)));
        }
        g.lemma_wf();
    }
    let ru = ds.find(u);
    let rv = ds.find(v);
    if ru != rv {
        proof {
            mst.lemma_wf();
            ds.lemma_wf();
            assert(g.edge_key(u, v) == key);
            assert(!mst.spec_edges().dom().contains(key)) by {
                assert((old_list[best as int].0, old_list[best as int].1) == key);
            }
            assert(reps(ds@).contains(ds@[v]));
            assert(reps(ds@).len() >= 1) by {
                if reps(ds@).len() == 0 {
                    reps(ds@).lemma_len0_is_empty();
                    assert(false);
                }
            }
            assert(((*accepted) as int) < g.spec_nodes().dom().len());
        }
        let ghost old_mst_nodes = mst.spec_nodes();
        let ghost old_mst_edges = mst.spec_edges();
        let ghost old_mst_adj = mst.spec_adj();
        let ghost old_ds = ds@;
        proof {
            assert(old_mst_adj.dom() =~= old_mst_nodes.dom());
            assert(old_mst_nodes.dom().contains(u) && old_mst_nodes.dom().contains(v));
            assert(u != v) by {
                if u == v {
                    assert(old_ds[u] == old_ds[v]);
                }
            }
        }
        g.copy_edge_to(mst, u, v);
        ds.union(u, v);
        *accepted += 1;
        proof {
            ds.lemma_wf();
            assert(mst.spec_nodes() =~= old_mst_nodes.insert(u, g.spec_nodes()[u]).insert(
                v,
                g.spec_nodes()[v],
            ));
            assert(old_mst_nodes.insert(u, g.spec_nodes()[u]) =~= old_mst_nodes);
            assert(mst.spec_nodes() =~= old_mst_nodes);
            assert(mst.spec_edges() =~= old_mst_edges.insert(key, g.spec_edges()[key]));
            assert(mst.spec_edges().dom() =~= old_mst_edges.dom().insert(key));
            assert(mst.spec_edges().dom().len() == old_mst_edges.dom().len() + 1) by {
                mst.lemma_wf();
            }
            assert(reps(old_ds).contains(old_ds[v]));
            assert(reps(ds@) =~= reps(old_ds).remove(old_ds[v]));
            assert(reps(ds@).len() + 1 == reps(old_ds).len());
            assert(adj_step(g.spec_adj(), u, v) && adj_step(g.spec_adj(), v, u)) by {
                assert(g.spec_adj()[key.0].contains(key.1) && g.spec_adj()[key.1].contains(
                    key.0,
                ));
            }
            lemma_reachable_refl(g.spec_adj(), u);
            lemma_reachable_refl(g.spec_adj(), v);
            lemma_reachable_step(g.spec_adj(), u, u, v);
            lemma_reachable_step(g.spec_adj(), v, v, u);
            lemma_union_preserves_reach(g.spec_adj(), ds@.dom(), old_ds, ds@, u, v);
            assert(ds@[u] == ds@[v]);
            assert(ensure_adj(ensure_adj(old_mst_adj, u), v) == old_mst_adj);
            lemma_mst_edge_growth(old_mst_adj, mst.spec_adj(), u, v);
            lemma_same_class_mono(old_mst_adj, mst.spec_adj(), old_ds, ds@.dom());
            lemma_reachable_refl(mst.spec_adj(), u);
            lemma_reachable_refl(mst.spec_adj(), v);
            lemma_reachable_step(mst.spec_adj(), u, u, v);
            lemma_reachable_step(mst.spec_adj(), v, v, u);
            lemma_union_preserves_reach(mst.spec_adj(), ds@.dom(), old_ds, ds@, u, v);
            lemma_union_preserves_done(
                g.spec_edges().dom(),
                old_list,
                list@,
                ds@.dom(),
                old_ds,
                ds@,
                v,
                u,
                key,
            );
        }
    } else {
        proof {
            assert forall|k2: usize| #[trigger] ds@.dom().contains(k2) implies ds@[k2] == if ds@[k2]
                == ds@[v] {
                ds@[u]
            } else {
                ds@[k2]
            } by {}
            assert(ds@[u] == ds@[v]);
            lemma_union_preserves_done(
                g.spec_edges().dom(),
                old_list,
                list@,
                ds@.dom(),
                ds@,
                ds@,
                v,
                u,
                key,
            );
        }
    }
}

proof fn lemma_single_class_connected(
    gadj: Map<usize, Seq<usize>>,
    madj: Map<usize, Seq<usize>>,
    ds: Map<usize, usize>,
    dom: Set<usize>,
)
    requires
        ds.dom() == dom,
        dom.finite(),
        dom.len() >= 1,
        same_class_reach(gadj, ds, dom),
        same_class_reach(madj, ds, dom),
        reps(ds).finite(),
        reps(ds).len() == 1,
        forall|k: usize| #[trigger]
            dom.contains(k) ==> dom.contains(ds[k]) && ds[ds[k]] == ds[k] && reps(ds).contains(
                ds[k],
            ),
    ensures
        exists|s: usize|
            dom.contains(s) && forall|m: usize| #[trigger]
                dom.contains(m) ==> reachable(gadj, s, m) && reachable(madj, s, m),
{
    assert(exists|s: usize| dom.contains(s)) by {
        if forall|s: usize| !#[trigger] dom.contains(s) {
            assert(dom =~= Set::<usize>::empty());
            assert(false);
        }
    }
    let s0 = choose|s: usize| dom.contains(s);
    assert forall|m: usize| #[trigger] dom.contains(m) implies reachable(gadj, s0, m) && reachable(
        madj,
        s0,
        m,
    ) by {
        assert(reps(ds).contains(ds[s0]) && reps(ds).contains(ds[m]));
        assert(ds[s0] == ds[m]) by {
            if ds[s0] != ds[m] {
                assert(reps(ds).remove(ds[s0]).contains(ds[m]));
                assert(reps(ds).remove(ds[s0]).len() == 0);
                assert(false);
            }
        }
        assert(reachable(gadj, s0, m)) by {
            reveal(same_class_reach);
        }
        assert(reachable(madj, s0, m)) by {
            reveal(same_class_reach);
        }
    }
    assert(dom.contains(s0) && forall|m: usize| #[trigger]
        dom.contains(m) ==> reachable(gadj, s0, m) && reachable(madj, s0, m));
}

/// Kruskal's algorithm: a minimum spanning tree of a connected, undirected,
/// weighted graph, built by accepting edges in ascending weight order when
/// their endpoints lie in different partitions of a union-find structure.
/// Fails with `NotUndirected` on a directed graph, and with `Disconnected`
/// when fewer than `size - 1` edges are accepted. The result contains every
/// node of `g` with its payload and a subset of `g`'s edges with their
/// payloads, one fewer than it has nodes.
#[verifier::rlimit(80)]
pub fn kruskal<V: Copy, E: Copy + Weight>(g: &AdjListGraph<V, E>) -> (r: Result<
    AdjListGraph<V, E>,
    MstError,
>)
    requires
        g.wf(),
    ensures
        g.spec_directed() ==> r === Result::Err(MstError::NotUndirected),
        !g.spec_directed() ==> match r {
            Result::Ok(t) => {
                &&& t.wf()
                &&& !t.spec_directed()
                &&& t.spec_nodes() == g.spec_nodes()
                &&& forall|k: (usize, usize)| #[trigger]
                    t.spec_edges().dom().contains(k) ==> g.spec_edges().dom().contains(k)
                        && t.spec_edges()[k] == g.spec_edges()[k]
                &&& t.spec_edges().dom().len() == if g.spec_nodes().dom().len() == 0 {
                    0int
                } else {
                    g.spec_nodes().dom().len() - 1
                }
                &&& g.spec_nodes().dom().len() > 0 ==> exists|s: usize|
                    g.spec_nodes().dom().contains(s) && forall|m: usize|
                        g.spec_nodes().dom().contains(m) ==> reachable(g.spec_adj(), s, m)
                            && reachable(t.spec_adj(), s, m)
            },
            Result::Err(e) => {
                &&& e == MstError::Disconnected
                &&& exists|s: usize, m: usize|
                    g.spec_nodes().dom().contains(s) && g.spec_nodes().dom().contains(m)
                        && !reachable(g.spec_adj(), s, m)
            },
        },
{
    if g.is_directed() {
        return Err(MstError::NotUndirected);
    }
    let n = g.size();
    let mut mst: AdjListGraph<V, E> = AdjListGraph::new(false);
    if n == 0 {
        proof {
            g.lemma_wf();
            g.spec_nodes().dom().lemma_len0_is_empty();
            assert(g.spec_nodes() =~= Map::<usize, Option<V>>::empty());
            assert(mst.spec_nodes() == g.spec_nodes());
            assert(mst.spec_edges().dom() =~= Set::<(usize, usize)>::empty());
        }
        return Ok(mst);
    }
    proof {
        g.lemma_wf();
        g.lemma_undirected_symmetric();
    }
    let ids = g.nodes_iter();
    let idn = ids.len();
    let mut ds = DisjointSet::new();
    let mut i: usize = 0;
    while i < idn
        invariant
            idn == ids@.len(),
            i <= idn,
            ids@.no_duplicates(),
            ds.wf(),
            forall|k: usize| #[trigger]
                ds@.dom().contains(k) <==> exists|j: int| 0 <= j < i && ids@[j] == k,
            forall|k: usize| #[trigger] ds@.dom().contains(k) ==> ds@[k] == k,
        decreases idn - i,
    {
        proof {
            if ds@.dom().contains(ids@[i as int]) {
                let j = choose|j: int| 0 <= j < i && ids@[j] == ids@[i as int];
                assert(false);
            }
        }
        ds.add_set(ids[i]);
        i += 1;
    }
    proof {
        assert(ds@.dom() =~= g.spec_nodes().dom()) by {
            assert forall|k: usize| #[trigger] ds@.dom().contains(k) implies g.spec_nodes(
            ).dom().contains(k) by {
                let j = choose|j: int| 0 <= j < idn && ids@[j] == k;
                assert(g.spec_nodes().dom().contains(ids@[j]));
            }
            assert forall|k: usize| #[trigger]
                g.spec_nodes().dom().contains(k) implies ds@.dom().contains(k) by {
                assert(ids@.to_set().contains(k));
                let j = choose|j: int| 0 <= j < ids@.len() && ids@[j] == k;
            }
        }
        assert(reps(ds@) =~= ds@.dom());
    }
    let mut i2: usize = 0;
    while i2 < idn
        invariant
            g.wf(),
            !g.spec_directed(),
            idn == ids@.len(),
            i2 <= idn,
            ids@.to_set() == g.spec_nodes().dom(),
            forall|j: int| 0 <= j < idn ==> g.spec_nodes().dom().contains(#[trigger] ids@[j]),
            mst.wf(),
            !mst.spec_directed(),
            mst.spec_edges() == Map::<(usize, usize), Option<E>>::empty(),
            forall|k: usize| #[trigger]
                mst.spec_nodes().dom().contains(k) ==> g.spec_nodes().dom().contains(k)
                    && mst.spec_nodes()[k] == g.spec_nodes()[k],
            forall|j: int|
                0 <= j < i2 ==> mst.spec_nodes().dom().contains(#[trigger] ids@[j]),
        decreases idn - i2,
    {
        g.copy_node_to(&mut mst, ids[i2]);
        i2 += 1;
    }
    proof {
        assert(mst.spec_nodes() =~= g.spec_nodes()) by {
            assert forall|k: usize| #[trigger]
                g.spec_nodes().dom().contains(k) implies mst.spec_nodes().dom().contains(k) by {
                assert(ids@.to_set().contains(k));
                let j = choose|j: int| 0 <= j < ids@.len() && ids@[j] == k;
            }
        }
    }
    let keys = g.edges_iter();
    let kn = keys.len();
    let mut list: Vec<(usize, usize, Option<E>)> = Vec::new();
    let mut i3: usize = 0;
    while i3 < kn
        invariant
            g.wf(),
            !g.spec_directed(),
            kn == keys@.len(),
            i3 <= kn,
            keys@.no_duplicates(),
            keys@.to_set() == g.spec_edges().dom(),
            forall|j: int| 0 <= j < kn ==> g.spec_edges().dom().contains(#[trigger] keys@[j]),
            list@.len() == i3,
            forall|s: int|
                0 <= s < i3 ==> ((#[trigger] list@[s]).0, list@[s].1) == keys@[s],
        decreases kn - i3,
    {
        let key = keys[i3];
        proof {
            g.lemma_wf();
            assert(key.0 <= key.1);
            assert(g.edge_key(key.0, key.1) == key);
        }
        let wt = *g.edge_prop(key.0, key.1);
        list.push((key.0, key.1, wt));
        i3 += 1;
    }
    proof {
        assert forall|k: (usize, usize)| #[trigger]
            g.spec_edges().dom().contains(k) implies in_edge_list(list@, k) by {
            assert(keys@.to_set().contains(k));
            let j = choose|j: int| 0 <= j < keys@.len() && keys@[j] == k;
            assert((list@[j].0, list@[j].1) == k);
        }
        assert forall|s: int|
            0 <= s < list@.len() implies g.spec_edges().dom().contains(
            ((#[trigger] list@[s]).0, list@[s].1),
        ) by {
            assert((list@[s].0, list@[s].1) == keys@[s]);
        }
        assert forall|s1: int, s2: int|
            0 <= s1 < s2 < list@.len() implies ((#[trigger] list@[s1]).0, list@[s1].1) != (
            (#[trigger] list@[s2]).0,
            list@[s2].1,
        ) by {
            assert((list@[s1].0, list@[s1].1) == keys@[s1]);
            assert((list@[s2].0, list@[s2].1) == keys@[s2]);
        }
    }
    let mut accepted: usize = 0;
    proof {
        g.lemma_wf();
        mst.lemma_wf();
        assert(same_class_reach(g.spec_adj(), ds@, ds@.dom())) by {
            reveal(same_class_reach);
            assert forall|a: usize, b: usize|
                ds@.dom().contains(a) && ds@.dom().contains(b) && (#[trigger] ds@[a]) == (
                #[trigger] ds@[b]) implies reachable(g.spec_adj(), a, b) by {
                assert(ds@[a] == a && ds@[b] == b);
                lemma_reachable_refl(g.spec_adj(), a);
            }
        }
        assert(mst.spec_adj().dom() =~= ds@.dom());
        assert(same_class_reach(mst.spec_adj(), ds@, ds@.dom())) by {
            reveal(same_class_reach);
            assert forall|a: usize, b: usize|
                ds@.dom().contains(a) && ds@.dom().contains(b) && (#[trigger] ds@[a]) == (
                #[trigger] ds@[b]) implies reachable(mst.spec_adj(), a, b) by {
                assert(ds@[a] == a && ds@[b] == b);
                assert(mst.spec_adj().dom().contains(a));
                lemma_reachable_refl(mst.spec_adj(), a);
            }
        }
    }
    proof {
        reveal(kruskal_inv);
        assert(kruskal_inv(g, ds, mst, list@, accepted as int));
    }
    while list.len() > 0
        invariant
            kruskal_inv(g, ds, mst, list@, accepted as int),
        decreases list@.len(),
    {
        kruskal_round(g, &mut ds, &mut mst, &mut list, &mut accepted);
    }
    proof {
        reveal(kruskal_inv);
    }
    proof {
        assert forall|k: (usize, usize)| #[trigger]
            g.spec_edges().dom().contains(k) implies ds@[k.0] == ds@[k.1] by {
            if in_edge_list(list@, k) {
                let s = choose|s: int|
                    0 <= s < list@.len() && ((#[trigger] list@[s]).0, list@[s].1) == k;
                assert(false);
            }
        }
        ds.lemma_wf();
        g.lemma_wf();
    }
    if accepted == n - 1 {
        proof {
            assert(reps(ds@).len() == 1);
            lemma_single_class_connected(
                g.spec_adj(),
                mst.spec_adj(),
                ds@,
                g.spec_nodes().dom(),
            );
        }
        Ok(mst)
    } else {
        proof {
            assert(reps(ds@).len() == n - accepted);
            assert(exists|s: usize| g.spec_nodes().dom().contains(s)) by {
                if forall|s: usize| !#[trigger] g.spec_nodes().dom().contains(s) {
                    assert(g.spec_nodes().dom() =~= Set::<usize>::empty());
                    assert(false);
                }
            }
            let s0 = choose|s: usize| g.spec_nodes().dom().contains(s);
            assert(reps(ds@).contains(ds@[s0]));
            assert(reps(ds@).len() >= 1);
            assert(accepted <= n - 1);
            assert(reps(ds@).len() >= 2);
            let r1 = ds@[s0];
            assert(reps(ds@).remove(r1).len() >= 1);
            assert(exists|r: usize| reps(ds@).remove(r1).contains(r)) by {
                if forall|r: usize| !#[trigger] reps(ds@).remove(r1).contains(r) {
                    assert(reps(ds@).remove(r1) =~= Set::<usize>::empty());
                    assert(false);
                }
            }
            let r2 = choose|r: usize| reps(ds@).remove(r1).contains(r);
            assert(r1 != r2);
            assert(ds@.dom().contains(r1) && ds@.dom().contains(r2));
            assert(ds@[r1] == r1 && ds@[r2] == r2);
            if reachable(g.spec_adj(), r1, r2) {
                let vis = Set::new(
                    |m: usize| g.spec_nodes().dom().contains(m) && ds@[m] == ds@[r1],
                );
                assert(vis.contains(r1));
                assert forall|a: usize, b: usize|
                    vis.contains(a) && #[trigger] adj_step(g.spec_adj(), a, b) implies vis.contains(
                    b,
                ) by {
                    let k = g.edge_key(a, b);
                    assert(g.spec_edges().dom().contains(k));
                    assert(ds@[k.0] == ds@[k.1]);
                    assert((k.0 == a && k.1 == b) || (k.0 == b && k.1 == a));
                }
                lemma_closed_reachable(g.spec_adj(), vis, r1, r2);
                assert(false);
            }
            assert(!reachable(g.spec_adj(), r1, r2));
        }
        Err(MstError::Disconnected)
    }
}

/// Node `n` occurs in the member list of some group of `r`.
pub open spec fn in_some_group(r: Seq<(usize, Vec<usize>)>, n: usize) -> bool {
    exists|i: int, x: int|
        0 <= i < r.len() && 0 <= x < r[i].1@.len() && (#[trigger] r[i].1@[x]) == n
}

/// All adjacency pairs of the first `i` rows have equal representatives.
#[verifier::opaque]
spec fn rows_done(adj: Map<usize, Seq<usize>>, m: Map<usize, usize>, ids: Seq<usize>, i: int) -> bool {
    forall|x: int, y: int|
        0 <= x < i && 0 <= y < adj[ids[x]].len() ==> m[ids[x]] == m[#[trigger] adj[ids[x]][y]]
}

/// The first `k` adjacency targets of `u` have `u`'s representative.
#[verifier::opaque]
spec fn row_partial(adj: Map<usize, Seq<usize>>, m: Map<usize, usize>, u: usize, k: int) -> bool {
    forall|y: int| 0 <= y < k ==> m[u] == m[#[trigger] adj[u][y]]
}

proof fn lemma_remap_preserves(
    adj: Map<usize, Seq<usize>>,
    ids: Seq<usize>,
    old_m: Map<usize, usize>,
    new_m: Map<usize, usize>,
    dom: Set<usize>,
    rx: usize,
    ry: usize,
    i: int,
    u: usize,
    k: int,
)
    requires
        rows_done(adj, old_m, ids, i),
        row_partial(adj, old_m, u, k),
        forall|t: usize| #[trigger]
            dom.contains(t) ==> new_m[t] == if old_m[t] == ry {
                rx
            } else {
                old_m[t]
            },
        forall|x: int| 0 <= x < ids.len() ==> dom.contains(#[trigger] ids[x]),
        forall|t: usize, w: usize| #[trigger] adj_step(adj, t, w) ==> dom.contains(w),
        forall|x: int| 0 <= x < ids.len() ==> adj.dom().contains(#[trigger] ids[x]),
        dom.contains(u),
        adj.dom().contains(u),
        i <= ids.len(),
        0 <= k <= adj[u].len(),
    ensures
        rows_done(adj, new_m, ids, i),
        row_partial(adj, new_m, u, k),
{
    reveal(rows_done);
    reveal(row_partial);
    assert forall|x: int, y: int|
        0 <= x < i && 0 <= y < adj[ids[x]].len() implies new_m[ids[x]] == new_m[
        #[trigger] adj[ids[x]][y]] by {
        reveal(rows_done);
        assert(adj_step(adj, ids[x], adj[ids[x]][y]));
        assert(dom.contains(ids[x]) && dom.contains(adj[ids[x]][y]));
        assert(old_m[ids[x]] == old_m[adj[ids[x]][y]]);
    }
    assert forall|y: int| 0 <= y < k implies new_m[u] == new_m[#[trigger] adj[u][y]] by {
        reveal(row_partial);
        assert(adj_step(adj, u, adj[u][y]));
        assert(dom.contains(u) && dom.contains(adj[u][y]));
        assert(old_m[u] == old_m[adj[u][y]]);
    }
}

/// Connected components: a union-find structure is seeded with every node
/// as its own singleton, the endpoints of every edge are merged, and the
/// result is the partition as a list of groups, one representative id with
/// its member ids each. Every node of the graph is in exactly one group,
/// adjacent nodes share a group, and any two members of one group are
/// connected through the symmetric closure of adjacency — so the groups are
/// exactly the connected components.
pub fn connected_components<V, E>(g: &AdjListGraph<V, E>) -> (r: Vec<(usize, Vec<usize>)>)
    requires
        g.wf(),
    ensures
        forall|i: int, x1: int, x2: int|
            0 <= i < r@.len() && 0 <= x1 < r@[i].1@.len() && 0 <= x2 < r@[i].1@.len()
                ==> sym_connected(g.spec_adj(), #[trigger] r@[i].1@[x1], #[trigger] r@[i].1@[x2]),
        forall|i: int|
            0 <= i < r@.len() ==> (#[trigger] r@[i]).1@.len() >= 1 && r@[i].1@.contains(r@[i].0),
        forall|i: int, x: int|
            0 <= i < r@.len() && 0 <= x < r@[i].1@.len() ==> g.spec_nodes().dom().contains(
                #[trigger] r@[i].1@[x],
            ),
        forall|i: int, x1: int, x2: int|
            0 <= i < r@.len() && 0 <= x1 < x2 < r@[i].1@.len() ==> (#[trigger] r@[i].1@[x1]) != (
            #[trigger] r@[i].1@[x2]),
        forall|i1: int, i2: int|
            0 <= i1 < i2 < r@.len() ==> (#[trigger] r@[i1]).0 != (#[trigger] r@[i2]).0,
        forall|i1: int, x1: int, i2: int, x2: int|
            0 <= i1 < i2 < r@.len() && 0 <= x1 < r@[i1].1@.len() && 0 <= x2 < r@[i2].1@.len()
                ==> (#[trigger] r@[i1].1@[x1]) != (#[trigger] r@[i2].1@[x2]),
        forall|n: usize| #[trigger] g.spec_nodes().dom().contains(n) ==> in_some_group(r@, n),
        forall|u: usize, w: usize| #[trigger]
            adj_step(g.spec_adj(), u, w) ==> exists|i: int|
                0 <= i < r@.len() && r@[i].1@.contains(u) && r@[i].1@.contains(w),
{
    proof {
        g.lemma_wf();
    }
    let ids = g.nodes_iter();
    let idn = ids.len();
    let mut ds = DisjointSet::new();
    let mut i0: usize = 0;
    while i0 < idn
        invariant
            idn == ids@.len(),
            i0 <= idn,
            ids@.no_duplicates(),
            ds.wf(),
            forall|k: usize| #[trigger]
                ds@.dom().contains(k) <==> exists|j: int| 0 <= j < i0 && ids@[j] == k,
            forall|k: usize| #[trigger] ds@.dom().contains(k) ==> ds@[k] == k,
        decreases idn - i0,
    {
        proof {
            if ds@.dom().contains(ids@[i0 as int]) {
                let j = choose|j: int| 0 <= j < i0 && ids@[j] == ids@[i0 as int];
                assert(false);
            }
        }
        ds.add_set(ids[i0]);
        i0 += 1;
    }
    proof {
        assert(ds@.dom() =~= g.spec_nodes().dom()) by {
            assert forall|k: usize| #[trigger] ds@.dom().contains(k) implies g.spec_nodes(
            ).dom().contains(k) by {
                let j = choose|j: int| 0 <= j < idn && ids@[j] == k;
                assert(g.spec_nodes().dom().contains(ids@[j]));
            }
            assert forall|k: usize| #[trigger]
                g.spec_nodes().dom().contains(k) implies ds@.dom().contains(k) by {
                assert(ids@.to_set().contains(k));
                let j = choose|j: int| 0 <= j < ids@.len() && ids@[j] == k;
            }
        }
        assert(rows_done(g.spec_adj(), ds@, ids@, 0)) by {
            reveal(rows_done);
        }
        g.lemma_wf();
        assert(same_class_sym(g.spec_adj(), ds@, ds@.dom())) by {
            reveal(same_class_sym);
            assert forall|a: usize, b: usize|
                ds@.dom().contains(a) && ds@.dom().contains(b) && (#[trigger] ds@[a]) == (
                #[trigger] ds@[b]) implies sym_connected(g.spec_adj(), a, b) by {
                assert(ds@[a] == a && ds@[b] == b);
                assert(g.spec_adj().dom().contains(a));
                lemma_sym_refl(g.spec_adj(), a);
            }
        }
    }
    let mut i: usize = 0;
    while i < idn
        invariant
            g.wf(),
            idn == ids@.len(),
            i <= idn,
            ids@.to_set() == g.spec_nodes().dom(),
            forall|j: int| 0 <= j < idn ==> g.spec_nodes().dom().contains(#[trigger] ids@[j]),
            ds.wf(),
            ds@.dom() == g.spec_nodes().dom(),
            rows_done(g.spec_adj(), ds@, ids@, i as int),
            same_class_sym(g.spec_adj(), ds@, ds@.dom()),
        decreases idn - i,
    {
        let u = ids[i];
        let neigh = g.adj_iter(u);
        let m = neigh.len();
        let mut k: usize = 0;
        proof {
            g.lemma_wf();
            assert(row_partial(g.spec_adj(), ds@, u, 0)) by {
                reveal(row_partial);
            }
        }
        while k < m
            invariant
                g.wf(),
                idn == ids@.len(),
                i < idn,
                u == ids@[i as int],
                ids@.to_set() == g.spec_nodes().dom(),
                forall|j: int| 0 <= j < idn ==> g.spec_nodes().dom().contains(#[trigger] ids@[j]),
                g.spec_adj().dom().contains(u),
                neigh@ == g.spec_adj()[u],
                m == neigh@.len(),
                k <= m,
                ds.wf(),
                ds@.dom() == g.spec_nodes().dom(),
                rows_done(g.spec_adj(), ds@, ids@, i as int),
                row_partial(g.spec_adj(), ds@, u, k as int),
                same_class_sym(g.spec_adj(), ds@, ds@.dom()),
            decreases m - k,
        {
            let w = neigh[k];
            proof {
                g.lemma_wf();
                assert(adj_step(g.spec_adj(), u, w));
            }
            let ru = ds.find(u);
            let rw = ds.find(w);
            if ru != rw {
                let ghost old_ds = ds@;
                ds.union(u, w);
                proof {
                    g.lemma_wf();
                    lemma_remap_preserves(
                        g.spec_adj(),
                        ids@,
                        old_ds,
                        ds@,
                        ds@.dom(),
                        ru,
                        rw,
                        i as int,
                        u,
                        k as int,
                    );
                    assert(ds@[u] == ds@[w]);
                    assert(sym_step(g.spec_adj(), u, w));
                    assert(g.spec_adj().dom().contains(u));
                    assert(g.spec_adj().dom().contains(w));
                    lemma_sym_refl(g.spec_adj(), u);
                    lemma_sym_refl(g.spec_adj(), w);
                    lemma_sym_step(g.spec_adj(), u, u, w);
                    lemma_sym_step(g.spec_adj(), w, w, u);
                    lemma_union_preserves_sym(g.spec_adj(), ds@.dom(), old_ds, ds@, u, w);
                }
            }
            proof {
                assert(row_partial(g.spec_adj(), ds@, u, k + 1)) by {
                    reveal(row_partial);
                    assert forall|y: int| 0 <= y < k + 1 implies ds@[u] == ds@[
                    #[trigger] g.spec_adj()[u][y]] by {
                        if y < k {
                        } else {
                            assert(g.spec_adj()[u][y] == w);
                        }
                    }
                }
            }
            k += 1;
        }
        proof {
            assert(rows_done(g.spec_adj(), ds@, ids@, i + 1)) by {
                reveal(rows_done);
                reveal(row_partial);
                assert forall|x: int, y: int|
                    0 <= x < i + 1 && 0 <= y < g.spec_adj()[ids@[x]].len() implies ds@[ids@[x]]
                    == ds@[#[trigger] g.spec_adj()[ids@[x]][y]] by {
                    if x == i as int {
                        assert(ds@[u] == ds@[g.spec_adj()[u][y]]);
                    }
                }
            }
        }
        i += 1;
    }
    proof {
        g.lemma_wf();
        assert forall|u: usize, w: usize| #[trigger]
            adj_step(g.spec_adj(), u, w) implies ds@[u] == ds@[w] by {
            reveal(rows_done);
            assert(ids@.to_set().contains(u));
            let x = choose|x: int| 0 <= x < ids@.len() && ids@[x] == u;
            let y = choose|y: int| 0 <= y < g.spec_adj()[u].len() && g.spec_adj()[u][y] == w;
            assert(ds@[ids@[x]] == ds@[g.spec_adj()[ids@[x]][y]]);
        }
        ds.lemma_wf();
    }
    let mut r: Vec<(usize, Vec<usize>)> = Vec::new();
    let mut j: usize = 0;
    while j < idn
        invariant
            g.wf(),
            idn == ids@.len(),
            j <= idn,
            ids@.no_duplicates(),
            ids@.to_set() == g.spec_nodes().dom(),
            forall|j2: int| 0 <= j2 < idn ==> g.spec_nodes().dom().contains(#[trigger] ids@[j2]),
            ds.wf(),
            ds@.dom() == g.spec_nodes().dom(),
            forall|i2: int| 0 <= i2 < r@.len() ==> (#[trigger] r@[i2]).1@.len() >= 1,
            forall|i2: int, x: int|
                0 <= i2 < r@.len() && 0 <= x < r@[i2].1@.len() ==> ds@[#[trigger] r@[i2].1@[x]]
                    == r@[i2].0 && g.spec_nodes().dom().contains(r@[i2].1@[x]) && ids@.take(
                    j as int,
                ).contains(r@[i2].1@[x]),
            forall|i1: int, i2: int|
                0 <= i1 < i2 < r@.len() ==> (#[trigger] r@[i1]).0 != (#[trigger] r@[i2]).0,
            forall|i2: int, x1: int, x2: int|
                0 <= i2 < r@.len() && 0 <= x1 < x2 < r@[i2].1@.len() ==> (
                #[trigger] r@[i2].1@[x1]) != (#[trigger] r@[i2].1@[x2]),
            forall|x: int| 0 <= x < j ==> in_some_group(r@, #[trigger] ids@[x]),
        decreases idn - j,
    {
        let id = ids[j];
        let p = ds.find(id);
        let rn = r.len();
        let mut t: usize = 0;
        let mut found: bool = false;
        let mut gi: usize = 0;
        while t < rn && !found
            invariant
                rn == r@.len(),
                t <= rn,
                !found ==> forall|t2: int| 0 <= t2 < t ==> (#[trigger] r@[t2]).0 != p,
                found ==> gi < rn && r@[gi as int].0 == p,
            decreases rn - t,
        {
            if r[t].0 == p {
                found = true;
                gi = t;
            }
            t += 1;
        }
        let ghost old_r = r@;
        if found {
            r[gi].1.push(id);
            proof {
                assert(r@ =~= old_r.update(gi as int, r@[gi as int]));
                assert(r@[gi as int].0 == p);
                assert(r@[gi as int].1@ == old_r[gi as int].1@.push(id));
                assert(ids@.take(j + 1)[j as int] == id);
                assert forall|i2: int, x: int|
                    0 <= i2 < r@.len() && 0 <= x < r@[i2].1@.len() implies ds@[
                #[trigger] r@[i2].1@[x]] == r@[i2].0 && g.spec_nodes().dom().contains(r@[i2].1@[x])
                    && ids@.take(j + 1).contains(r@[i2].1@[x]) by {
                    if i2 == gi as int && x == r@[i2].1@.len() - 1 {
                        assert(r@[i2].1@[x] == id);
                        assert(ds@[id] == p);
                    } else {
                        assert(r@[i2].1@[x] == old_r[i2].1@[x]);
                        assert(ids@.take(j as int).contains(old_r[i2].1@[x]));
                        let q = choose|q: int|
                            0 <= q < j && ids@.take(j as int)[q] == old_r[i2].1@[x];
                        assert(ids@.take(j + 1)[q] == old_r[i2].1@[x]);
                    }
                }
                assert forall|i2: int, x1: int, x2: int|
                    0 <= i2 < r@.len() && 0 <= x1 < x2 < r@[i2].1@.len() implies (
                #[trigger] r@[i2].1@[x1]) != (#[trigger] r@[i2].1@[x2]) by {
                    if i2 == gi as int && x2 == r@[i2].1@.len() - 1 {
                        assert(r@[i2].1@[x1] == old_r[i2].1@[x1]);
                        assert(ids@.take(j as int).contains(old_r[i2].1@[x1]));
                        let q = choose|q: int|
                            0 <= q < j && ids@.take(j as int)[q] == old_r[i2].1@[x1];
                        assert(ids@[q] == old_r[i2].1@[x1]);
                        if old_r[i2].1@[x1] == id {
                            assert(ids@[q] == ids@[j as int]);
                            assert(false);
                        }
                    }
                }
                assert forall|x: int| 0 <= x < j + 1 implies in_some_group(
                    r@,
                    #[trigger] ids@[x],
                ) by {
                    if x < j {
                        assert(in_some_group(old_r, ids@[x]));
                        let (i2, x2) = choose|i2: int, x2: int|
                            0 <= i2 < old_r.len() && 0 <= x2 < old_r[i2].1@.len() && (
                            #[trigger] old_r[i2].1@[x2]) == ids@[x];
                        assert(r@[i2].1@[x2] == ids@[x]);
                    } else {
                        assert(r@[gi as int].1@[r@[gi as int].1@.len() - 1] == id);
                    }
                }
            }
        } else {
            let mut members: Vec<usize> = Vec::new();
            members.push(id);
            r.push((p, members));
            proof {
                assert(r@[r@.len() - 1].0 == p);
                assert(r@[r@.len() - 1].1@ =~= seq![id]);
                assert forall|i2: int, x: int|
                    0 <= i2 < r@.len() && 0 <= x < r@[i2].1@.len() implies ds@[
                #[trigger] r@[i2].1@[x]] == r@[i2].0 && g.spec_nodes().dom().contains(r@[i2].1@[x])
                    && ids@.take(j + 1).contains(r@[i2].1@[x]) by {
                    if i2 < old_r.len() {
                        assert(r@[i2].1@[x] == old_r[i2].1@[x]);
                        assert(ids@.take(j as int).contains(old_r[i2].1@[x]));
                        let q = choose|q: int|
                            0 <= q < j && ids@.take(j as int)[q] == old_r[i2].1@[x];
                        assert(ids@.take(j + 1)[q] == old_r[i2].1@[x]);
                    } else {
                        assert(r@[i2].1@[x] == id);
                        assert(ds@[id] == p);
                        assert(ids@.take(j + 1)[j as int] == id);
                    }
                }
                assert forall|x: int| 0 <= x < j + 1 implies in_some_group(
                    r@,
                    #[trigger] ids@[x],
                ) by {
                    if x < j {
                        assert(in_some_group(old_r, ids@[x]));
                        let (i2, x2) = choose|i2: int, x2: int|
                            0 <= i2 < old_r.len() && 0 <= x2 < old_r[i2].1@.len() && (
                            #[trigger] old_r[i2].1@[x2]) == ids@[x];
                        assert(r@[i2].1@[x2] == ids@[x]);
                    } else {
                        assert(r@[r@.len() - 1].1@[0] == id);
                    }
                }
            }
        }
        j += 1;
    }
    proof {
        assert(ids@.take(idn as int) =~= ids@);
        ds.lemma_wf();
        assert forall|n: usize| #[trigger]
            g.spec_nodes().dom().contains(n) implies in_some_group(r@, n) by {
            assert(ids@.to_set().contains(n));
            let x = choose|x: int| 0 <= x < ids@.len() && ids@[x] == n;
        }
        assert forall|i1: int, x1: int, i2: int, x2: int|
            0 <= i1 < i2 < r@.len() && 0 <= x1 < r@[i1].1@.len() && 0 <= x2 < r@[i2].1@.len()
            implies (#[trigger] r@[i1].1@[x1]) != (#[trigger] r@[i2].1@[x2]) by {
            if r@[i1].1@[x1] == r@[i2].1@[x2] {
                assert(ds@[r@[i1].1@[x1]] == r@[i1].0);
                assert(ds@[r@[i2].1@[x2]] == r@[i2].0);
                assert(false);
            }
        }
        assert forall|i: int|
            0 <= i < r@.len() implies (#[trigger] r@[i]).1@.len() >= 1 && r@[i].1@.contains(
            r@[i].0,
        ) by {
            let mem = r@[i].1@[0];
            assert(ds@[mem] == r@[i].0);
            let p = r@[i].0;
            assert(g.spec_nodes().dom().contains(mem));
            assert(ds@.dom().contains(p) && ds@[p] == p);
            assert(in_some_group(r@, p));
            let (i2, x2) = choose|i2: int, x2: int|
                0 <= i2 < r@.len() && 0 <= x2 < r@[i2].1@.len() && (#[trigger] r@[i2].1@[x2]) == p;
            assert(ds@[r@[i2].1@[x2]] == r@[i2].0);
            assert(r@[i2].0 == p);
            if i2 < i {
                assert(r@[i2].0 != r@[i].0);
                assert(false);
            }
            if i < i2 {
                assert(r@[i].0 != r@[i2].0);
                assert(false);
            }
            assert(r@[i].1@[x2] == p);
        }
        assert forall|u: usize, w: usize| #[trigger]
            adj_step(g.spec_adj(), u, w) implies exists|i: int|
            0 <= i < r@.len() && r@[i].1@.contains(u) && r@[i].1@.contains(w) by {
            g.lemma_wf();
            assert(ds@[u] == ds@[w]);
            assert(in_some_group(r@, u) && in_some_group(r@, w));
            let (i1, x1) = choose|i1: int, x1: int|
                0 <= i1 < r@.len() && 0 <= x1 < r@[i1].1@.len() && (#[trigger] r@[i1].1@[x1]) == u;
            let (i2, x2) = choose|i2: int, x2: int|
                0 <= i2 < r@.len() && 0 <= x2 < r@[i2].1@.len() && (#[trigger] r@[i2].1@[x2]) == w;
            assert(r@[i1].0 == ds@[u] && r@[i2].0 == ds@[w]);
            if i1 < i2 {
                assert(r@[i1].0 != r@[i2].0);
                assert(false);
            }
            if i2 < i1 {
                assert(r@[i2].0 != r@[i1].0);
                assert(false);
            }
            assert(r@[i1].1@.contains(u) && r@[i1].1@.contains(w));
        }
        assert forall|i: int, x1: int, x2: int|
            0 <= i < r@.len() && 0 <= x1 < r@[i].1@.len() && 0 <= x2 < r@[i].1@.len()
            implies sym_connected(
            g.spec_adj(),
            #[trigger] r@[i].1@[x1],
            #[trigger] r@[i].1@[x2],
        ) by {
            assert(ds@[r@[i].1@[x1]] == r@[i].0);
            assert(ds@[r@[i].1@[x2]] == r@[i].0);
            assert(g.spec_nodes().dom().contains(r@[i].1@[x1]));
            assert(g.spec_nodes().dom().contains(r@[i].1@[x2]));
            assert(sym_connected(g.spec_adj(), r@[i].1@[x1], r@[i].1@[x2])) by {
                reveal(same_class_sym);
            }
        }
    }
    r
}

/// The minimum node id of `g`, or `None` if the graph has no nodes.
fn min_node<V, E>(g: &AdjListGraph<V, E>) -> (r: Option<usize>)
    requires
        g.wf(),
    ensures
        match r {
            Some(s) => g.spec_nodes().dom().contains(s) && forall|n: usize|
                g.spec_nodes().dom().contains(n) ==> s <= n,
            None => g.spec_nodes().dom().len() == 0,
        },
{
    let ids = g.nodes_iter();
    let n = ids.len();
    if n == 0 {
        return None;
    }
    let mut best = ids[0];
    let mut i: usize = 1;
    while i < n
        invariant
            n == ids@.len(),
            1 <= i <= n,
            ids@.contains(best),
            forall|j: int| 0 <= j < i ==> best <= #[trigger] ids@[j],
        decreases n - i,
    {
        if ids[i] < best {
            best = ids[i];
        }
        i += 1;
    }
    proof {
        let bi = choose|bi: int| 0 <= bi < ids@.len() && ids@[bi] == best;
        assert(ids@.to_set().contains(best));
        assert forall|m: usize| g.spec_nodes().dom().contains(m) implies best <= m by {
            assert(ids@.to_set().contains(m));
            let j = choose|j: int| 0 <= j < ids@.len() && ids@[j] == m;
            assert(best <= ids@[j]);
        }
    }
    Some(best)
}

} // verus!
